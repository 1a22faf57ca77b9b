//! The SIGABA (ECM Mark II) rotor machine: five cipher rotors scrambled
//! letter by letter, stepped irregularly by a control bank whose output is
//! filtered through an index bank.

use vstd::prelude::*;

verus! {

use crate::Block;

/// The cipher and control rotor wirings, by rotor number.
pub open spec fn spec_rotor_wiring(i: int) -> Seq<u8> {
    if i == 0 {
        seq![87u8, 74u8, 75u8, 90u8, 82u8, 69u8, 68u8, 83u8, 88u8, 79u8, 84u8, 89u8, 80u8, 85u8, 65u8, 71u8, 86u8, 72u8, 67u8, 66u8, 70u8, 77u8, 81u8, 76u8, 78u8, 73u8]
    } else
 if i == 1 {
        seq![68u8, 90u8, 87u8, 88u8, 80u8, 72u8, 83u8, 71u8, 66u8, 89u8, 82u8, 70u8, 79u8, 84u8, 75u8, 74u8, 86u8, 67u8, 78u8, 65u8, 69u8, 73u8, 76u8, 77u8, 85u8, 81u8]
    } else
 if i == 2 {
        seq![71u8, 90u8, 74u8, 68u8, 77u8, 89u8, 85u8, 88u8, 76u8, 87u8, 83u8, 73u8, 86u8, 82u8, 69u8, 80u8, 72u8, 81u8, 66u8, 79u8, 78u8, 84u8, 75u8, 65u8, 70u8, 67u8]
    } else
 if i == 3 {
        seq![66u8, 72u8, 70u8, 86u8, 77u8, 67u8, 88u8, 79u8, 84u8, 65u8, 82u8, 90u8, 80u8, 85u8, 71u8, 68u8, 75u8, 83u8, 74u8, 78u8, 76u8, 89u8, 69u8, 87u8, 73u8, 81u8]
    } else
 if i == 4 {
        seq![89u8, 81u8, 87u8, 74u8, 83u8, 67u8, 79u8, 90u8, 65u8, 75u8, 80u8, 88u8, 76u8, 86u8, 82u8, 69u8, 66u8, 84u8, 85u8, 70u8, 68u8, 71u8, 78u8, 72u8, 77u8, 73u8]
    } else
 if i == 5 {
        seq![88u8, 79u8, 84u8, 90u8, 65u8, 89u8, 81u8, 85u8, 86u8, 82u8, 69u8, 66u8, 75u8, 87u8, 83u8, 80u8, 76u8, 77u8, 78u8, 72u8, 73u8, 68u8, 71u8, 67u8, 74u8, 70u8]
    } else
 if i == 6 {
        seq![87u8, 74u8, 82u8, 65u8, 88u8, 76u8, 84u8, 90u8, 79u8, 89u8, 81u8, 85u8, 86u8, 82u8, 69u8, 66u8, 75u8, 83u8, 80u8, 76u8, 77u8, 78u8, 72u8, 73u8, 68u8, 71u8]
    } else
 if i == 7 {
        seq![74u8, 82u8, 65u8, 88u8, 76u8, 84u8, 90u8, 79u8, 89u8, 81u8, 85u8, 86u8, 82u8, 69u8, 66u8, 75u8, 83u8, 80u8, 76u8, 77u8, 78u8, 72u8, 73u8, 68u8, 71u8, 87u8]
    } else
 if i == 8 {
        seq![82u8, 65u8, 88u8, 76u8, 84u8, 90u8, 79u8, 89u8, 81u8, 85u8, 86u8, 82u8, 69u8, 66u8, 75u8, 83u8, 80u8, 76u8, 77u8, 78u8, 72u8, 73u8, 68u8, 71u8, 87u8, 74u8]
    } else
 if i == 9 {
        seq![65u8, 88u8, 76u8, 84u8, 90u8, 79u8, 89u8, 81u8, 85u8, 86u8, 82u8, 69u8, 66u8, 75u8, 83u8, 80u8, 76u8, 77u8, 78u8, 72u8, 73u8, 68u8, 71u8, 87u8, 74u8, 82u8]
    } else
    {
        Seq::empty()
    }
}

/// The index rotor wirings, by rotor number.
pub open spec fn spec_index_wiring(i: int) -> Seq<u8> {
    if i == 0 {
        seq![48u8, 57u8, 49u8, 56u8, 50u8, 55u8, 51u8, 54u8, 52u8, 53u8, 65u8, 66u8, 67u8, 68u8, 69u8, 70u8, 71u8, 72u8, 73u8, 74u8, 75u8, 76u8, 77u8, 78u8, 79u8, 80u8]
    } else
 if i == 1 {
        seq![49u8, 48u8, 51u8, 50u8, 53u8, 52u8, 55u8, 54u8, 57u8, 56u8, 65u8, 66u8, 67u8, 68u8, 69u8, 70u8, 71u8, 72u8, 73u8, 74u8, 75u8, 76u8, 77u8, 78u8, 79u8, 80u8]
    } else
 if i == 2 {
        seq![50u8, 49u8, 48u8, 52u8, 51u8, 54u8, 53u8, 56u8, 55u8, 57u8, 65u8, 66u8, 67u8, 68u8, 69u8, 70u8, 71u8, 72u8, 73u8, 74u8, 75u8, 76u8, 77u8, 78u8, 79u8, 80u8]
    } else
 if i == 3 {
        seq![51u8, 50u8, 49u8, 48u8, 53u8, 52u8, 55u8, 54u8, 57u8, 56u8, 65u8, 66u8, 67u8, 68u8, 69u8, 70u8, 71u8, 72u8, 73u8, 74u8, 75u8, 76u8, 77u8, 78u8, 79u8, 80u8]
    } else
 if i == 4 {
        seq![52u8, 51u8, 50u8, 49u8, 48u8, 53u8, 54u8, 55u8, 56u8, 57u8, 65u8, 66u8, 67u8, 68u8, 69u8, 70u8, 71u8, 72u8, 73u8, 74u8, 75u8, 76u8, 77u8, 78u8, 79u8, 80u8]
    } else
    {
        Seq::empty()
    }
}

/// The wiring of a cipher or control rotor slot.
fn rotor_wiring(i: usize) -> (w: Vec<u8>)
    requires
        i < 10,
    ensures
        w@ == spec_rotor_wiring(i as int),
        w@.len() == 26,
{
    let w: Vec<u8> = 
if i == 0 {
        vec![87u8, 74u8, 75u8, 90u8, 82u8, 69u8, 68u8, 83u8, 88u8, 79u8, 84u8, 89u8, 80u8, 85u8, 65u8, 71u8, 86u8, 72u8, 67u8, 66u8, 70u8, 77u8, 81u8, 76u8, 78u8, 73u8]
    } else if i == 1 {
        vec![68u8, 90u8, 87u8, 88u8, 80u8, 72u8, 83u8, 71u8, 66u8, 89u8, 82u8, 70u8, 79u8, 84u8, 75u8, 74u8, 86u8, 67u8, 78u8, 65u8, 69u8, 73u8, 76u8, 77u8, 85u8, 81u8]
    } else if i == 2 {
        vec![71u8, 90u8, 74u8, 68u8, 77u8, 89u8, 85u8, 88u8, 76u8, 87u8, 83u8, 73u8, 86u8, 82u8, 69u8, 80u8, 72u8, 81u8, 66u8, 79u8, 78u8, 84u8, 75u8, 65u8, 70u8, 67u8]
    } else if i == 3 {
        vec![66u8, 72u8, 70u8, 86u8, 77u8, 67u8, 88u8, 79u8, 84u8, 65u8, 82u8, 90u8, 80u8, 85u8, 71u8, 68u8, 75u8, 83u8, 74u8, 78u8, 76u8, 89u8, 69u8, 87u8, 73u8, 81u8]
    } else if i == 4 {
        vec![89u8, 81u8, 87u8, 74u8, 83u8, 67u8, 79u8, 90u8, 65u8, 75u8, 80u8, 88u8, 76u8, 86u8, 82u8, 69u8, 66u8, 84u8, 85u8, 70u8, 68u8, 71u8, 78u8, 72u8, 77u8, 73u8]
    } else if i == 5 {
        vec![88u8, 79u8, 84u8, 90u8, 65u8, 89u8, 81u8, 85u8, 86u8, 82u8, 69u8, 66u8, 75u8, 87u8, 83u8, 80u8, 76u8, 77u8, 78u8, 72u8, 73u8, 68u8, 71u8, 67u8, 74u8, 70u8]
    } else if i == 6 {
        vec![87u8, 74u8, 82u8, 65u8, 88u8, 76u8, 84u8, 90u8, 79u8, 89u8, 81u8, 85u8, 86u8, 82u8, 69u8, 66u8, 75u8, 83u8, 80u8, 76u8, 77u8, 78u8, 72u8, 73u8, 68u8, 71u8]
    } else if i == 7 {
        vec![74u8, 82u8, 65u8, 88u8, 76u8, 84u8, 90u8, 79u8, 89u8, 81u8, 85u8, 86u8, 82u8, 69u8, 66u8, 75u8, 83u8, 80u8, 76u8, 77u8, 78u8, 72u8, 73u8, 68u8, 71u8, 87u8]
    } else if i == 8 {
        vec![82u8, 65u8, 88u8, 76u8, 84u8, 90u8, 79u8, 89u8, 81u8, 85u8, 86u8, 82u8, 69u8, 66u8, 75u8, 83u8, 80u8, 76u8, 77u8, 78u8, 72u8, 73u8, 68u8, 71u8, 87u8, 74u8]
    } else if i == 9 {
        vec![65u8, 88u8, 76u8, 84u8, 90u8, 79u8, 89u8, 81u8, 85u8, 86u8, 82u8, 69u8, 66u8, 75u8, 83u8, 80u8, 76u8, 77u8, 78u8, 72u8, 73u8, 68u8, 71u8, 87u8, 74u8, 82u8]
    } else {
        Vec::new()
    };
    proof {
        assert(w@ =~= spec_rotor_wiring(i as int));
    }
    w
}

/// The wiring of an index rotor slot.
fn index_wiring(i: usize) -> (w: Vec<u8>)
    requires
        i < 5,
    ensures
        w@ == spec_index_wiring(i as int),
        w@.len() == 26,
{
    let w: Vec<u8> = 
if i == 0 {
        vec![48u8, 57u8, 49u8, 56u8, 50u8, 55u8, 51u8, 54u8, 52u8, 53u8, 65u8, 66u8, 67u8, 68u8, 69u8, 70u8, 71u8, 72u8, 73u8, 74u8, 75u8, 76u8, 77u8, 78u8, 79u8, 80u8]
    } else if i == 1 {
        vec![49u8, 48u8, 51u8, 50u8, 53u8, 52u8, 55u8, 54u8, 57u8, 56u8, 65u8, 66u8, 67u8, 68u8, 69u8, 70u8, 71u8, 72u8, 73u8, 74u8, 75u8, 76u8, 77u8, 78u8, 79u8, 80u8]
    } else if i == 2 {
        vec![50u8, 49u8, 48u8, 52u8, 51u8, 54u8, 53u8, 56u8, 55u8, 57u8, 65u8, 66u8, 67u8, 68u8, 69u8, 70u8, 71u8, 72u8, 73u8, 74u8, 75u8, 76u8, 77u8, 78u8, 79u8, 80u8]
    } else if i == 3 {
        vec![51u8, 50u8, 49u8, 48u8, 53u8, 52u8, 55u8, 54u8, 57u8, 56u8, 65u8, 66u8, 67u8, 68u8, 69u8, 70u8, 71u8, 72u8, 73u8, 74u8, 75u8, 76u8, 77u8, 78u8, 79u8, 80u8]
    } else if i == 4 {
        vec![52u8, 51u8, 50u8, 49u8, 48u8, 53u8, 54u8, 55u8, 56u8, 57u8, 65u8, 66u8, 67u8, 68u8, 69u8, 70u8, 71u8, 72u8, 73u8, 74u8, 75u8, 76u8, 77u8, 78u8, 79u8, 80u8]
    } else {
        Vec::new()
    };
    proof {
        assert(w@ =~= spec_index_wiring(i as int));
    }
    w
}


/// An upper-case letter or a decimal digit.
pub open spec fn sg_alnum(b: u8) -> bool {
    (65 <= b <= 90) || (48 <= b <= 57)
}

/// An upper-case letter.
pub open spec fn sg_letter(b: u8) -> bool {
    65 <= b <= 90
}

/// A rotor: its wiring, the inverse wiring, and its position.
pub struct SgRotor {
    /// The forward wiring.
    pub w: Seq<u8>,
    /// The inverse wiring.
    pub inv: Seq<u8>,
    /// The rotational position.
    pub pos: int,
}

/// One cell of the reversed wiring: the contact found at `i` is re-seated
/// so that the signal runs the other way round the rotor.
pub open spec fn sg_rev_build(orig: Seq<u8>, n: int) -> Seq<u8>
    decreases n,
{
    if n <= 0 {
        Seq::new(26, |k: int| 0u8)
    } else {
        let w = sg_rev_build(orig, n - 1);
        let i = n - 1;
        let val = orig[i];
        if sg_letter(val) {
            let out = val - 65;
            let diff = (out - i + 26) % 26;
            let no = (out - diff + 26) % 26;
            w.update(out as int, (no + 65) as u8)
        } else if 48 <= val <= 57 {
            let out = val - 48;
            let diff = (out - i + 26) % 26;
            let no = (out - diff + 26) % 26;
            w.update(out as int, (no % 10 + 48) as u8)
        } else {
            w
        }
    }
}

/// The inverse wiring of a rotor, one contact at a time.
pub open spec fn sg_inv_build(w: Seq<u8>, n: int) -> Seq<u8>
    decreases n,
{
    if n <= 0 {
        Seq::new(26, |k: int| 0u8)
    } else {
        let inv = sg_inv_build(w, n - 1);
        let i = n - 1;
        let val = w[i];
        if sg_letter(val) {
            inv.update((val - 65) as int, (i + 65) as u8)
        } else if 48 <= val <= 57 {
            inv.update((val - 48) as int, (i + 48) as u8)
        } else {
            inv
        }
    }
}

/// A rotor built from a wiring, a position, and an orientation.
pub open spec fn spec_rotor_new(wiring: Seq<u8>, pos: int, reversed: bool) -> SgRotor {
    let w = if reversed {
        sg_rev_build(wiring, 26)
    } else {
        wiring
    };
    SgRotor { w: w, inv: sg_inv_build(w, 26), pos: pos }
}

/// A forward pass through one rotor.
pub open spec fn sg_fwd(r: SgRotor, input: u8) -> u8 {
    let base: int = if sg_letter(input) {
        65
    } else {
        48
    };
    let m: int = if base == 65 {
        26
    } else {
        10
    };
    let off_in = (input - base + r.pos) % m;
    let output = r.w[off_in];
    let ob: int = if sg_letter(output) {
        65
    } else {
        48
    };
    let om: int = if ob == 65 {
        26
    } else {
        10
    };
    let off_out = ((output - ob - r.pos) % om + om) % om;
    (off_out + ob) as u8
}

/// A backward pass through one rotor.
pub open spec fn sg_bwd(r: SgRotor, input: u8) -> u8 {
    let base: int = if sg_letter(input) {
        65
    } else {
        48
    };
    let m: int = if base == 65 {
        26
    } else {
        10
    };
    let off_in = (input - base + r.pos) % m;
    let output = r.inv[off_in];
    let ob: int = if sg_letter(output) {
        65
    } else {
        48
    };
    let om: int = if ob == 65 {
        26
    } else {
        10
    };
    let off_out = ((output - ob - r.pos) % om + om) % om;
    (off_out + ob) as u8
}

/// A signal passed forward through a bank from rotor `j` on.
pub open spec fn sg_chain_fwd(bank: Seq<SgRotor>, j: int, input: u8) -> u8
    decreases bank.len() - j,
{
    if j < 0 || j >= bank.len() {
        input
    } else {
        sg_chain_fwd(bank, j + 1, sg_fwd(bank[j], input))
    }
}

/// A signal passed backward through a bank from rotor `j` down.
pub open spec fn sg_chain_bwd(bank: Seq<SgRotor>, j: int, input: u8) -> u8
    decreases j + 1,
{
    if j < 0 || j >= bank.len() {
        input
    } else {
        sg_chain_bwd(bank, j - 1, sg_bwd(bank[j], input))
    }
}

/// The rotor advanced one place.
pub open spec fn sg_stepped(r: SgRotor) -> SgRotor {
    SgRotor { w: r.w, inv: r.inv, pos: (r.pos + 1) % 26 }
}

/// The machine: its cipher, control and index banks.
pub struct SgView {
    /// The five cipher rotors.
    pub cipher: Seq<SgRotor>,
    /// The five control rotors.
    pub control: Seq<SgRotor>,
    /// The five index rotors.
    pub index: Seq<SgRotor>,
}

/// The control bank after its odometer step: the middle rotor always
/// steps, its neighbours on reaching the marked positions.
pub open spec fn sg_step_control(control: Seq<SgRotor>) -> Seq<SgRotor> {
    let c = control.update(2, sg_stepped(control[2]));
    let c = if c[2].pos == 0 {
        c.update(1, sg_stepped(c[1]))
    } else {
        c
    };
    if c[2].pos == 13 {
        c.update(3, sg_stepped(c[3]))
    } else {
        c
    }
}

/// Which cipher rotors step: the four probe signals through the control
/// bank, reduced to an index rotor input, pick the rotors.
pub open spec fn sg_flags_from(v: SgView, control: Seq<SgRotor>, k: int, flags: Seq<bool>) -> Seq<
    bool,
>
    decreases 4 - k,
{
    if k < 0 || k >= 4 {
        flags
    } else {
        let inp: u8 = (70 + k) as u8;
        let val = sg_chain_fwd(control, 0, inp);
        let idx_in = ((val - 65) % 10 + 48) as u8;
        let vi = sg_chain_fwd(v.index, 0, idx_in);
        let ri = (vi - 48) % 5;
        sg_flags_from(v, control, k + 1, flags.update(ri as int, true))
    }
}

/// One machine step: the control bank advances and the picked cipher
/// rotors step.
pub open spec fn sg_step(v: SgView) -> SgView {
    let control = sg_step_control(v.control);
    let flags = sg_flags_from(v, control, 0, Seq::new(5, |i: int| false));
    let cipher = Seq::new(
        5,
        |i: int|
            if flags[i] {
                sg_stepped(v.cipher[i])
            } else {
                v.cipher[i]
            },
    );
    SgView { cipher: cipher, control: control, index: v.index }
}

/// One letter through the cipher bank; other bytes pass unchanged.
pub open spec fn sg_transform(cipher: Seq<SgRotor>, input: u8, decrypt: bool) -> u8 {
    if !((65 <= input <= 90) || (97 <= input <= 122)) {
        input
    } else {
        let val: u8 = if input >= 97 {
            (input - 32) as u8
        } else {
            input
        };
        if decrypt {
            sg_chain_bwd(cipher, 4, val)
        } else {
            sg_chain_fwd(cipher, 0, val)
        }
    }
}

/// The buffer transformed letter by letter, the machine stepping after
/// each byte.
pub open spec fn spec_sg_crypt(v: SgView, decrypt: bool, src: Seq<u8>) -> Seq<u8>
    decreases src.len(),
{
    if src.len() == 0 {
        Seq::empty()
    } else {
        seq![sg_transform(v.cipher, src[0], decrypt)] + spec_sg_crypt(
            sg_step(v),
            decrypt,
            src.skip(1),
        )
    }
}

/// A rotor whose wiring and inverse carry letters on every contact.
pub open spec fn sg_rotor_letters(r: SgRotor) -> bool {
    &&& r.w.len() == 26
    &&& r.inv.len() == 26
    &&& 0 <= r.pos < 26
    &&& forall|k: int| 0 <= k < 26 ==> sg_letter(#[trigger] r.w[k])
    &&& forall|k: int| 0 <= k < 26 ==> sg_letter(#[trigger] r.inv[k])
}

/// An index rotor: digits on the ten live contacts.
pub open spec fn sg_rotor_index(r: SgRotor) -> bool {
    &&& r.w.len() == 26
    &&& r.inv.len() == 26
    &&& 0 <= r.pos < 26
    &&& forall|k: int| 0 <= k < 10 ==> 48 <= #[trigger] r.w[k] <= 57
}

/// A well-formed machine.
pub open spec fn sg_wf(v: SgView) -> bool {
    &&& v.cipher.len() == 5
    &&& v.control.len() == 5
    &&& v.index.len() == 5
    &&& forall|i: int| 0 <= i < 5 ==> sg_rotor_letters(#[trigger] v.cipher[i])
    &&& forall|i: int| 0 <= i < 5 ==> sg_rotor_letters(#[trigger] v.control[i])
    &&& forall|i: int| 0 <= i < 5 ==> sg_rotor_index(#[trigger] v.index[i])
}


/// The two wrap-around forms of the output offset agree.
proof fn lemma_wrap(o2: int, pos: int, om: int)
    requires
        0 <= o2 < om,
        0 <= pos,
        om >= 1,
    ensures
        ((o2 - pos) % om + om) % om == (o2 + om - pos % om) % om,
        0 <= ((o2 - pos) % om + om) % om < om,
{
    vstd::arithmetic::div_mod::lemma_mod_bound(pos, om);
    vstd::arithmetic::div_mod::lemma_fundamental_div_mod(pos, om);
    let pm = pos % om;
    let q = pos / om;
    assert((o2 - pos) % om == (o2 - pm) % om) by {
        vstd::arithmetic::div_mod::lemma_mod_multiples_vanish(-q, o2 - pm, om);
        assert(om * (-q) == -(om * q)) by (nonlinear_arith);
        assert(om * (-q) + (o2 - pm) == o2 - pos);
    }
    if o2 >= pm {
        vstd::arithmetic::div_mod::lemma_small_mod((o2 - pm) as nat, om as nat);
        vstd::arithmetic::div_mod::lemma_mod_multiples_vanish(1, o2 - pm, om);
        vstd::arithmetic::div_mod::lemma_small_mod((o2 - pm) as nat, om as nat);
    } else {
        vstd::arithmetic::div_mod::lemma_mod_multiples_vanish(1, o2 - pm, om);
        vstd::arithmetic::div_mod::lemma_small_mod((o2 - pm + om) as nat, om as nat);
        vstd::arithmetic::div_mod::lemma_mod_multiples_vanish(1, o2 - pm + om, om);
    }
}

/// A letter in gives a letter out of a letter-wired rotor.
proof fn lemma_fwd_letter(r: SgRotor, input: u8)
    requires
        sg_rotor_letters(r),
        sg_letter(input),
    ensures
        sg_letter(sg_fwd(r, input)),
        sg_letter(sg_bwd(r, input)),
{
    vstd::arithmetic::div_mod::lemma_mod_bound(input - 65 + r.pos, 26);
    let off_in = (input - 65 + r.pos) % 26;
    vstd::arithmetic::div_mod::lemma_mod_bound((r.w[off_in] - 65 - r.pos) % 26 + 26, 26);
    vstd::arithmetic::div_mod::lemma_mod_bound(r.w[off_in] - 65 - r.pos, 26);
    vstd::arithmetic::div_mod::lemma_mod_bound((r.inv[off_in] - 65 - r.pos) % 26 + 26, 26);
    vstd::arithmetic::div_mod::lemma_mod_bound(r.inv[off_in] - 65 - r.pos, 26);
}

/// A digit in gives a digit out of an index rotor.
proof fn lemma_fwd_digit(r: SgRotor, input: u8)
    requires
        sg_rotor_index(r),
        48 <= input <= 57,
    ensures
        48 <= sg_fwd(r, input) <= 57,
{
    vstd::arithmetic::div_mod::lemma_mod_bound(input - 48 + r.pos, 10);
    let off_in = (input - 48 + r.pos) % 10;
    vstd::arithmetic::div_mod::lemma_mod_bound((r.w[off_in] - 48 - r.pos) % 10 + 10, 10);
    vstd::arithmetic::div_mod::lemma_mod_bound(r.w[off_in] - 48 - r.pos, 10);
}

/// A rotor of the machine.
pub struct Rotor {
    w: Vec<u8>,
    inv: Vec<u8>,
    pos: usize,
}

impl View for Rotor {
    type V = SgRotor;

    /// The rotor is modelled by its wirings and position.
    closed spec fn view(&self) -> SgRotor {
        SgRotor { w: self.w@, inv: self.inv@, pos: self.pos as int }
    }
}

impl Rotor {
    /// Builds a rotor from a wiring, a position and an orientation.
    fn new_from(wiring: &Vec<u8>, position: usize, reversed: bool) -> (r: Rotor)
        requires
            wiring@.len() == 26,
            position < 26,
        ensures
            r@ == spec_rotor_new(wiring@, position as int, reversed),
    {
        let mut w: Vec<u8>;
        if !reversed {
            w = Vec::new();
            w.extend_from_slice(wiring.as_slice());
            proof {
                assert(w@ =~= wiring@);
            }
        } else {
            w = vec![0u8; 26];
            proof {
                assert(w@ =~= sg_rev_build(wiring@, 0));
            }
            let mut i: usize = 0;
            while i < 26
                invariant
                    wiring@.len() == 26,
                    i <= 26,
                    w@.len() == 26,
                    w@ == sg_rev_build(wiring@, i as int),
                decreases 26 - i,
            {
                let val: u8 = wiring[i];
                if 65 <= val && val <= 90 {
                    let out: usize = (val - 65) as usize;
                    let diff: usize = (out + 26 - i) % 26;
                    let no: usize = (out + 26 - diff) % 26;
                    proof {
                        vstd::arithmetic::div_mod::lemma_mod_bound(out as int + 26 - i, 26);
                        vstd::arithmetic::div_mod::lemma_mod_bound(
                            out as int - i as int + 26,
                            26,
                        );
                        vstd::arithmetic::div_mod::lemma_small_mod(
                            (out + 26 - i) as nat % 26,
                            26,
                        );
                        assert((out as int + 26 - i) % 26 == (out as int - i + 26) % 26);
                        vstd::arithmetic::div_mod::lemma_mod_bound(
                            out as int + 26 - diff as int,
                            26,
                        );
                        assert((out as int + 26 - diff) % 26 == (out as int - diff + 26) % 26);
                    }
                    w[out] = (no + 65) as u8;
                } else if 48 <= val && val <= 57 {
                    let out: usize = (val - 48) as usize;
                    let diff: usize = (out + 26 - i) % 26;
                    let no: usize = (out + 26 - diff) % 26;
                    proof {
                        vstd::arithmetic::div_mod::lemma_mod_bound(out as int + 26 - i, 26);
                        assert((out as int + 26 - i) % 26 == (out as int - i + 26) % 26);
                        vstd::arithmetic::div_mod::lemma_mod_bound(
                            out as int + 26 - diff as int,
                            26,
                        );
                        assert((out as int + 26 - diff) % 26 == (out as int - diff + 26) % 26);
                        vstd::arithmetic::div_mod::lemma_mod_bound(no as int, 10);
                    }
                    w[out] = ((no % 10) + 48) as u8;
                }
                i = i + 1;
            }
        }
        let mut inv: Vec<u8> = vec![0u8; 26];
        proof {
            assert(inv@ =~= sg_inv_build(w@, 0));
        }
        let mut i: usize = 0;
        while i < 26
            invariant
                w@.len() == 26,
                i <= 26,
                inv@.len() == 26,
                inv@ == sg_inv_build(w@, i as int),
            decreases 26 - i,
        {
            let val: u8 = w[i];
            if 65 <= val && val <= 90 {
                inv[(val - 65) as usize] = (i + 65) as u8;
            } else if 48 <= val && val <= 57 {
                inv[(val - 48) as usize] = (i + 48) as u8;
            }
            i = i + 1;
        }
        Rotor { w, inv, pos: position }
    }

    /// Copies a rotor.
    fn duplicate(&self) -> (r: Rotor)
        ensures
            r@ == self@,
    {
        let mut w: Vec<u8> = Vec::new();
        w.extend_from_slice(self.w.as_slice());
        let mut inv: Vec<u8> = Vec::new();
        inv.extend_from_slice(self.inv.as_slice());
        proof {
            assert(w@ =~= self@.w);
            assert(inv@ =~= self@.inv);
        }
        Rotor { w, inv, pos: self.pos }
    }

    /// A forward pass.
    fn forward(&self, input: u8) -> (out: u8)
        requires
            self@.w.len() == 26,
            0 <= self@.pos < 26,
            sg_alnum(input),
            sg_letter(input) ==> forall|k: int| 0 <= k < 26 ==> sg_alnum(#[trigger] self@.w[k]),
            !sg_letter(input) ==> forall|k: int| 0 <= k < 10 ==> sg_alnum(#[trigger] self@.w[k]),
        ensures
            out == sg_fwd(self@, input),
    {
        let base: u8 = if 65 <= input && input <= 90 {
            65
        } else {
            48
        };
        let m: usize = if base == 65 {
            26
        } else {
            10
        };
        proof {
            vstd::arithmetic::div_mod::lemma_mod_bound(
                input as int - base as int + self@.pos,
                m as int,
            );
        }
        let off_in: usize = ((input - base) as usize + self.pos) % m;
        let output: u8 = self.w[off_in];
        let ob: u8 = if 65 <= output && output <= 90 {
            65
        } else {
            48
        };
        let om: usize = if ob == 65 {
            26
        } else {
            10
        };
        proof {
            lemma_wrap(output as int - ob as int, self@.pos, om as int);
            vstd::arithmetic::div_mod::lemma_mod_bound(self@.pos, om as int);
        }
        let off_out: usize = ((output - ob) as usize + om - self.pos % om) % om;
        (off_out as u8) + ob
    }

    /// A backward pass.
    fn backward(&self, input: u8) -> (out: u8)
        requires
            self@.inv.len() == 26,
            0 <= self@.pos < 26,
            sg_alnum(input),
            sg_letter(input) ==> forall|k: int| 0 <= k < 26 ==> sg_alnum(#[trigger] self@.inv[k]),
            !sg_letter(input) ==> forall|k: int| 0 <= k < 10 ==> sg_alnum(#[trigger] self@.inv[k]),
        ensures
            out == sg_bwd(self@, input),
    {
        let base: u8 = if 65 <= input && input <= 90 {
            65
        } else {
            48
        };
        let m: usize = if base == 65 {
            26
        } else {
            10
        };
        proof {
            vstd::arithmetic::div_mod::lemma_mod_bound(
                input as int - base as int + self@.pos,
                m as int,
            );
        }
        let off_in: usize = ((input - base) as usize + self.pos) % m;
        let output: u8 = self.inv[off_in];
        let ob: u8 = if 65 <= output && output <= 90 {
            65
        } else {
            48
        };
        let om: usize = if ob == 65 {
            26
        } else {
            10
        };
        proof {
            lemma_wrap(output as int - ob as int, self@.pos, om as int);
            vstd::arithmetic::div_mod::lemma_mod_bound(self@.pos, om as int);
        }
        let off_out: usize = ((output - ob) as usize + om - self.pos % om) % om;
        (off_out as u8) + ob
    }

    /// Steps the rotor one place.
    fn step(&mut self)
        requires
            old(self)@.pos < 26,
        ensures
            final(self)@ == sg_stepped(old(self)@),
    {
        self.pos = (self.pos + 1) % 26;
    }
}


/// The models of a bank's rotors.
pub open spec fn bank_view(v: Seq<Rotor>) -> Seq<SgRotor> {
    Seq::new(v.len(), |i: int| v[i]@)
}

/// The machine built from the chosen rotors, positions and orientations.
pub open spec fn spec_sg_build(
    ci: Seq<usize>,
    cp: Seq<usize>,
    cr: Seq<bool>,
    ni: Seq<usize>,
    np: Seq<usize>,
    nr: Seq<bool>,
    xi: Seq<usize>,
    xp: Seq<usize>,
    xr: Seq<bool>,
) -> SgView {
    SgView {
        cipher: Seq::new(
            5,
            |k: int| spec_rotor_new(spec_rotor_wiring(ci[k] as int), cp[k] as int, cr[k]),
        ),
        control: Seq::new(
            5,
            |k: int| spec_rotor_new(spec_rotor_wiring(ni[k] as int), np[k] as int, nr[k]),
        ),
        index: Seq::new(
            5,
            |k: int| spec_rotor_new(spec_index_wiring(xi[k] as int), xp[k] as int, xr[k]),
        ),
    }
}

proof fn lemma_sg_crypt_len(v: SgView, decrypt: bool, src: Seq<u8>)
    ensures
        spec_sg_crypt(v, decrypt, src).len() == src.len(),
    decreases src.len(),
{
    if src.len() > 0 {
        lemma_sg_crypt_len(sg_step(v), decrypt, src.skip(1));
    }
}

/// A machine step leaves the machine well formed: only positions move.
proof fn lemma_sg_step_wf(v: SgView)
    requires
        sg_wf(v),
    ensures
        sg_wf(sg_step(v)),
{
    let control = sg_step_control(v.control);
    assert forall|i: int| 0 <= i < 5 implies sg_rotor_letters(#[trigger] control[i]) by {
        vstd::arithmetic::div_mod::lemma_mod_bound(v.control[2].pos + 1, 26);
        if control[2].pos == 0 {
            vstd::arithmetic::div_mod::lemma_mod_bound(v.control[1].pos + 1, 26);
        }
        vstd::arithmetic::div_mod::lemma_mod_bound(v.control[3].pos + 1, 26);
    }
    let s = sg_step(v);
    assert forall|i: int| 0 <= i < 5 implies sg_rotor_letters(#[trigger] s.cipher[i]) by {
        vstd::arithmetic::div_mod::lemma_mod_bound(v.cipher[i].pos + 1, 26);
    }
}

/// Steps a rotor of a bank in place.
fn bump_rotor(v: &mut Vec<Rotor>, i: usize)
    requires
        i < old(v)@.len(),
        old(v)@[i as int]@.pos < 26,
    ensures
        final(v)@.len() == old(v)@.len(),
        final(v)@[i as int]@ == sg_stepped(old(v)@[i as int]@),
        forall|k: int| 0 <= k < old(v)@.len() && k != i ==> final(v)@[k] == old(v)@[k],
{
    let mut r: Rotor = v.remove(i);
    r.step();
    v.insert(i, r);
    proof {
        assert(v@ =~= old(v)@.update(i as int, r));
    }
}

/// A signal passed forward through a letter-wired bank.
fn chain_letters(bank: &Vec<Rotor>, input: u8) -> (out: u8)
    requires
        bank@.len() == 5,
        forall|i: int| 0 <= i < 5 ==> sg_rotor_letters(#[trigger] bank_view(bank@)[i]),
        sg_letter(input),
    ensures
        out == sg_chain_fwd(bank_view(bank@), 0, input),
        sg_letter(out),
{
    let ghost bv = bank_view(bank@);
    let mut val: u8 = input;
    let mut j: usize = 0;
    while j < 5
        invariant
            bank@.len() == 5,
            bv == bank_view(bank@),
            forall|i: int| 0 <= i < 5 ==> sg_rotor_letters(#[trigger] bv[i]),
            j <= 5,
            sg_letter(val),
            sg_chain_fwd(bv, j as int, val) == sg_chain_fwd(bv, 0, input),
        decreases 5 - j,
    {
        proof {
            lemma_fwd_letter(bv[j as int], val);
        }
        val = bank[j].forward(val);
        j = j + 1;
    }
    val
}

/// A signal passed forward through the index bank.
fn chain_index(bank: &Vec<Rotor>, input: u8) -> (out: u8)
    requires
        bank@.len() == 5,
        forall|i: int| 0 <= i < 5 ==> sg_rotor_index(#[trigger] bank_view(bank@)[i]),
        48 <= input <= 57,
    ensures
        out == sg_chain_fwd(bank_view(bank@), 0, input),
        48 <= out <= 57,
{
    let ghost bv = bank_view(bank@);
    let mut val: u8 = input;
    let mut j: usize = 0;
    while j < 5
        invariant
            bank@.len() == 5,
            bv == bank_view(bank@),
            forall|i: int| 0 <= i < 5 ==> sg_rotor_index(#[trigger] bv[i]),
            j <= 5,
            48 <= val <= 57,
            sg_chain_fwd(bv, j as int, val) == sg_chain_fwd(bv, 0, input),
        decreases 5 - j,
    {
        proof {
            lemma_fwd_digit(bv[j as int], val);
        }
        val = bank[j].forward(val);
        j = j + 1;
    }
    val
}

/// The SIGABA machine.
pub struct Sigaba {
    cipher: Vec<Rotor>,
    control: Vec<Rotor>,
    index: Vec<Rotor>,
}

impl View for Sigaba {
    type V = SgView;

    /// The machine is modelled by its three rotor banks.
    closed spec fn view(&self) -> SgView {
        SgView {
            cipher: bank_view(self.cipher@),
            control: bank_view(self.control@),
            index: bank_view(self.index@),
        }
    }
}

impl Sigaba {
    /// Creates a new SIGABA machine from the rotor choices, positions and
    /// orientations of the three banks.
    pub fn new(
        cipher_indices: [usize; 5],
        cipher_pos: [usize; 5],
        cipher_rev: [bool; 5],
        control_indices: [usize; 5],
        control_pos: [usize; 5],
        control_rev: [bool; 5],
        index_indices: [usize; 5],
        index_pos: [usize; 5],
        index_rev: [bool; 5],
    ) -> (c: Self)
        requires
            forall|k: int| 0 <= k < 5 ==> #[trigger] cipher_indices@[k] < 10,
            forall|k: int| 0 <= k < 5 ==> #[trigger] control_indices@[k] < 10,
            forall|k: int| 0 <= k < 5 ==> #[trigger] index_indices@[k] < 5,
            forall|k: int| 0 <= k < 5 ==> #[trigger] cipher_pos@[k] < 26,
            forall|k: int| 0 <= k < 5 ==> #[trigger] control_pos@[k] < 26,
            forall|k: int| 0 <= k < 5 ==> #[trigger] index_pos@[k] < 26,
        ensures
            c@ == spec_sg_build(
                cipher_indices@,
                cipher_pos@,
                cipher_rev@,
                control_indices@,
                control_pos@,
                control_rev@,
                index_indices@,
                index_pos@,
                index_rev@,
            ),
    {
        let mut cipher: Vec<Rotor> = Vec::new();
        let mut k: usize = 0;
        while k < 5
            invariant
                forall|t: int| 0 <= t < 5 ==> #[trigger] cipher_indices@[t] < 10,
                forall|t: int| 0 <= t < 5 ==> #[trigger] cipher_pos@[t] < 26,
                k <= 5,
                cipher@.len() == k,
                forall|t: int|
                    0 <= t < k ==> #[trigger] cipher@[t]@ == spec_rotor_new(
                        spec_rotor_wiring(cipher_indices@[t] as int),
                        cipher_pos@[t] as int,
                        cipher_rev@[t],
                    ),
            decreases 5 - k,
        {
            let w = rotor_wiring(cipher_indices[k]);
            cipher.push(Rotor::new_from(&w, cipher_pos[k], cipher_rev[k]));
            k = k + 1;
        }
        let mut control: Vec<Rotor> = Vec::new();
        let mut k2: usize = 0;
        while k2 < 5
            invariant
                forall|t: int| 0 <= t < 5 ==> #[trigger] control_indices@[t] < 10,
                forall|t: int| 0 <= t < 5 ==> #[trigger] control_pos@[t] < 26,
                k2 <= 5,
                control@.len() == k2,
                forall|t: int|
                    0 <= t < k2 ==> #[trigger] control@[t]@ == spec_rotor_new(
                        spec_rotor_wiring(control_indices@[t] as int),
                        control_pos@[t] as int,
                        control_rev@[t],
                    ),
            decreases 5 - k2,
        {
            let w = rotor_wiring(control_indices[k2]);
            control.push(Rotor::new_from(&w, control_pos[k2], control_rev[k2]));
            k2 = k2 + 1;
        }
        let mut index: Vec<Rotor> = Vec::new();
        let mut k3: usize = 0;
        while k3 < 5
            invariant
                forall|t: int| 0 <= t < 5 ==> #[trigger] index_indices@[t] < 5,
                forall|t: int| 0 <= t < 5 ==> #[trigger] index_pos@[t] < 26,
                k3 <= 5,
                index@.len() == k3,
                forall|t: int|
                    0 <= t < k3 ==> #[trigger] index@[t]@ == spec_rotor_new(
                        spec_index_wiring(index_indices@[t] as int),
                        index_pos@[t] as int,
                        index_rev@[t],
                    ),
            decreases 5 - k3,
        {
            let w = index_wiring(index_indices[k3]);
            index.push(Rotor::new_from(&w, index_pos[k3], index_rev[k3]));
            k3 = k3 + 1;
        }
        let c = Sigaba { cipher, control, index };
        proof {
            let b = spec_sg_build(
                cipher_indices@,
                cipher_pos@,
                cipher_rev@,
                control_indices@,
                control_pos@,
                control_rev@,
                index_indices@,
                index_pos@,
                index_rev@,
            );
            assert(c@.cipher =~= b.cipher);
            assert(c@.control =~= b.control);
            assert(c@.index =~= b.index);
        }
        c
    }
}

/// Advances the machine one step: the control odometer turns and the
/// picked cipher rotors step.
fn step_banks(cipher: &mut Vec<Rotor>, control: &mut Vec<Rotor>, index: &Vec<Rotor>)
    requires
        sg_wf(
            SgView {
                cipher: bank_view(old(cipher)@),
                control: bank_view(old(control)@),
                index: bank_view(index@),
            },
        ),
    ensures
        ({
            let v0 = SgView {
                cipher: bank_view(old(cipher)@),
                control: bank_view(old(control)@),
                index: bank_view(index@),
            };
            let v1 = sg_step(v0);
            bank_view(final(cipher)@) == v1.cipher && bank_view(final(control)@) == v1.control
        }),
{
    let ghost v0 = SgView {
        cipher: bank_view(old(cipher)@),
        control: bank_view(old(control)@),
        index: bank_view(index@),
    };
    proof {
        assert(sg_rotor_letters(v0.control[2]));
        assert(v0.control[2] == control@[2]@);
    }
    bump_rotor(control, 2);
    if control[2].pos() == 0 {
        proof {
            assert(sg_rotor_letters(v0.control[1]));
            assert(control@[1]@ == v0.control[1]);
        }
        bump_rotor(control, 1);
    }
    if control[2].pos() == 13 {
        proof {
            assert(sg_rotor_letters(v0.control[3]));
            assert(control@[3]@ == v0.control[3]);
        }
        bump_rotor(control, 3);
    }
    proof {
        assert(bank_view(control@) =~= sg_step_control(v0.control));
    }
    let ghost ctl = bank_view(control@);
    let ghost init_flags = Seq::new(5, |i: int| false);
    let mut flags: Vec<bool> = vec![false; 5];
    proof {
        assert(flags@ =~= init_flags);
        assert forall|i: int| 0 <= i < 5 implies sg_rotor_letters(#[trigger] ctl[i]) by {
            vstd::arithmetic::div_mod::lemma_mod_bound(v0.control[2].pos + 1, 26);
            if ctl[2].pos == 0 {
                vstd::arithmetic::div_mod::lemma_mod_bound(v0.control[1].pos + 1, 26);
            }
            vstd::arithmetic::div_mod::lemma_mod_bound(v0.control[3].pos + 1, 26);
        }
    }
    let mut k: usize = 0;
    while k < 4
        invariant
            control@.len() == 5,
            index@.len() == 5,
            ctl == bank_view(control@),
            forall|i: int| 0 <= i < 5 ==> sg_rotor_letters(#[trigger] ctl[i]),
            forall|i: int| 0 <= i < 5 ==> sg_rotor_index(#[trigger] bank_view(index@)[i]),
            k <= 4,
            flags@.len() == 5,
            sg_flags_from(v0, ctl, k as int, flags@) == sg_flags_from(v0, ctl, 0, init_flags),
            v0.index == bank_view(index@),
        decreases 4 - k,
    {
        let inp: u8 = 70 + k as u8;
        let val: u8 = chain_letters(control, inp);
        proof {
            vstd::arithmetic::div_mod::lemma_mod_bound(val as int - 65, 10);
        }
        let idx_in: u8 = (val - 65) % 10 + 48;
        let vi: u8 = chain_index(index, idx_in);
        proof {
            vstd::arithmetic::div_mod::lemma_mod_bound(vi as int - 48, 5);
        }
        let ri: usize = ((vi - 48) % 5) as usize;
        flags[ri] = true;
        k = k + 1;
    }
    let ghost fl = sg_flags_from(v0, ctl, 0, init_flags);
    proof {
        assert(flags@ == fl);
    }
    let mut i: usize = 0;
    while i < 5
        invariant
            cipher@.len() == 5,
            flags@.len() == 5,
            flags@ == fl,
            forall|t: int| 0 <= t < 5 ==> 0 <= #[trigger] bank_view(old(cipher)@)[t].pos < 26,
            i <= 5,
            forall|t: int|
                0 <= t < 5 ==> #[trigger] cipher@[t]@ == (if t < i && fl[t] {
                    sg_stepped(bank_view(old(cipher)@)[t])
                } else {
                    bank_view(old(cipher)@)[t]
                }),
        decreases 5 - i,
    {
        if flags[i] {
            proof {
                assert(cipher@[i as int]@ == bank_view(old(cipher)@)[i as int]);
            }
            bump_rotor(cipher, i);
        }
        i = i + 1;
    }
    proof {
        assert(bank_view(cipher@) =~= sg_step(v0).cipher);
        assert(bank_view(control@) =~= sg_step(v0).control);
    }
}

impl Rotor {
    /// The rotor's position.
    fn pos(&self) -> (p: usize)
        ensures
            p as int == self@.pos,
    {
        self.pos
    }
}

/// One letter through the cipher bank.
fn transform_exec(cipher: &Vec<Rotor>, input: u8, decrypt: bool) -> (out: u8)
    requires
        cipher@.len() == 5,
        forall|i: int| 0 <= i < 5 ==> sg_rotor_letters(#[trigger] bank_view(cipher@)[i]),
    ensures
        out == sg_transform(bank_view(cipher@), input, decrypt),
{
    let ghost cv = bank_view(cipher@);
    if !((65 <= input && input <= 90) || (97 <= input && input <= 122)) {
        return input;
    }
    let val0: u8 = if input >= 97 {
        input - 32
    } else {
        input
    };
    if !decrypt {
        let mut val: u8 = val0;
        let mut j: usize = 0;
        while j < 5
            invariant
                cipher@.len() == 5,
                cv == bank_view(cipher@),
                forall|i: int| 0 <= i < 5 ==> sg_rotor_letters(#[trigger] cv[i]),
                j <= 5,
                sg_letter(val),
                sg_chain_fwd(cv, j as int, val) == sg_chain_fwd(cv, 0, val0),
            decreases 5 - j,
        {
            proof {
                lemma_fwd_letter(cv[j as int], val);
            }
            val = cipher[j].forward(val);
            j = j + 1;
        }
        val
    } else {
        let mut val: u8 = val0;
        let mut jj: usize = 5;
        while jj > 0
            invariant
                cipher@.len() == 5,
                cv == bank_view(cipher@),
                forall|i: int| 0 <= i < 5 ==> sg_rotor_letters(#[trigger] cv[i]),
                jj <= 5,
                sg_letter(val),
                sg_chain_bwd(cv, jj as int - 1, val) == sg_chain_bwd(cv, 4, val0),
            decreases jj,
        {
            jj = jj - 1;
            proof {
                lemma_fwd_letter(cv[jj as int], val);
            }
            val = cipher[jj].backward(val);
        }
        val
    }
}

impl Block for Sigaba {
    open spec fn wf(&self) -> bool {
        sg_wf(self@)
    }

    open spec fn spec_block_size(&self) -> int {
        1
    }

    open spec fn enc_ok(&self, src: Seq<u8>) -> bool {
        true
    }

    open spec fn dec_ok(&self, src: Seq<u8>) -> bool {
        true
    }

    open spec fn spec_enc(&self, src: Seq<u8>) -> Seq<u8> {
        spec_sg_crypt(self@, false, src)
    }

    open spec fn spec_dec(&self, src: Seq<u8>) -> Seq<u8> {
        spec_sg_crypt(self@, true, src)
    }

    fn block_size(&self) -> (n: usize) {
        1
    }

    fn encrypt(&self, dst: &mut Vec<u8>, src: &[u8]) -> (n: usize) {
        self.crypt(false, dst, src)
    }

    fn decrypt(&self, dst: &mut Vec<u8>, src: &[u8]) -> (n: usize) {
        self.crypt(true, dst, src)
    }
}

impl Sigaba {
    /// Transforms a buffer letter by letter from a fresh copy of the
    /// machine's initial state.
    fn crypt(&self, decrypt: bool, dst: &mut Vec<u8>, src: &[u8]) -> (n: usize)
        requires
            self.wf(),
            old(dst)@.len() >= spec_sg_crypt(self@, decrypt, src@).len(),
        ensures
            n == spec_sg_crypt(self@, decrypt, src@).len(),
            final(dst)@.len() == old(dst)@.len(),
            final(dst)@.subrange(0, n as int) == spec_sg_crypt(self@, decrypt, src@),
            final(dst)@.skip(n as int) == old(dst)@.skip(n as int),
    {
        let ghost out = spec_sg_crypt(self@, decrypt, src@);
        proof {
            lemma_sg_crypt_len(self@, decrypt, src@);
            assert(src@.skip(0) =~= src@);
        }
        let mut cipher: Vec<Rotor> = Vec::new();
        let mut control: Vec<Rotor> = Vec::new();
        let mut i0: usize = 0;
        while i0 < 5
            invariant
                self.wf(),
                i0 <= 5,
                cipher@.len() == i0,
                control@.len() == i0,
                forall|t: int| 0 <= t < i0 ==> #[trigger] cipher@[t]@ == self@.cipher[t],
                forall|t: int| 0 <= t < i0 ==> #[trigger] control@[t]@ == self@.control[t],
            decreases 5 - i0,
        {
            cipher.push(self.cipher[i0].duplicate());
            control.push(self.control[i0].duplicate());
            i0 = i0 + 1;
        }
        let ghost st0 = SgView {
            cipher: bank_view(cipher@),
            control: bank_view(control@),
            index: bank_view(self.index@),
        };
        proof {
            assert(st0.cipher =~= self@.cipher);
            assert(st0.control =~= self@.control);
            assert(st0 == self@);
        }
        let len: usize = src.len();
        let mut i: usize = 0;
        while i < len
            invariant
                self.wf(),
                len == src@.len(),
                i <= len,
                out == spec_sg_crypt(self@, decrypt, src@),
                out.len() == len,
                dst@.len() == old(dst)@.len() >= len,
                cipher@.len() == 5,
                control@.len() == 5,
                sg_wf(
                    SgView {
                        cipher: bank_view(cipher@),
                        control: bank_view(control@),
                        index: bank_view(self.index@),
                    },
                ),
                spec_sg_crypt(
                    SgView {
                        cipher: bank_view(cipher@),
                        control: bank_view(control@),
                        index: bank_view(self.index@),
                    },
                    decrypt,
                    src@.skip(i as int),
                ) == out.skip(i as int),
                forall|k: int| 0 <= k < i ==> dst@[k] == out[k],
                forall|k: int| i <= k < dst@.len() ==> dst@[k] == old(dst)@[k],
            decreases len - i,
        {
            let ghost stv = SgView {
                cipher: bank_view(cipher@),
                control: bank_view(control@),
                index: bank_view(self.index@),
            };
            let ghost rest = src@.skip(i as int);
            proof {
                assert(rest[0] == src@[i as int]);
                assert(rest.skip(1) =~= src@.skip(i as int + 1));
                assert(out.skip(i as int)[0] == out[i as int]);
                assert(out.skip(i as int).skip(1) =~= out.skip(i as int + 1));
                lemma_sg_step_wf(stv);
            }
            let b: u8 = transform_exec(&cipher, src[i], decrypt);
            dst[i] = b;
            step_banks(&mut cipher, &mut control, &self.index);
            proof {
                let stn = SgView {
                    cipher: bank_view(cipher@),
                    control: bank_view(control@),
                    index: bank_view(self.index@),
                };
                assert(stn.cipher == sg_step(stv).cipher);
                assert(stn.control == sg_step(stv).control);
                assert(stn == sg_step(stv));
            }
            i = i + 1;
        }
        proof {
            assert(dst@.subrange(0, len as int) =~= out);
            assert(dst@.skip(len as int) =~= old(dst)@.skip(len as int));
        }
        len
    }
}

} // verus!
