use old_crypto_rs::helpers::{
    by_n, condense, expand, fix_double, insert, output_as_block, shuffle, shuffle_next, to_numeric,
};

#[test]
fn test_condense() {
    let test_data = [
        ("ABCDE", "ABCDE"),
        ("AAAAA", "A"),
        ("ARABESQUE", "ARBESQU"),
        ("ARABESQUEABCDEFGHIKLMNOPQRSTUVWXYZ", "ARBESQUCDFGHIKLMNOPTVWXYZ"),
        ("PLAYFAIRABCDEFGHIKLMNOPQRSTUVWXYZ", "PLAYFIRBCDEGHKMNOQSTUVWXZ"),
        ("PLAYFAIREXMABCDEFGHIKLMNOPQRSTUVWXYZ", "PLAYFIREXMBCDGHKNOQSTUVWZ"),
    ];
    for (a, b) in test_data {
        assert_eq!(condense(a), b);
    }
}

#[test]
fn test_expand_insert() {
    let test_data = [
        ("AAA", "AXAXA"),
        ("AAAA", "AXAXAXA"),
        ("AAABRAACADAABRA", "AXAXABRAACADAXABRA"),
        ("ARABESQUE", "ARABESQUE"),
        ("LANNONCE", "LANXNONCE"),
        ("PJRJJJJJJS", "PJRJJXJXJXJXJS"),
        ("ABCDEFGHJJKLM", "ABCDEFGHJXJKLM"),
    ];
    for (a, b) in test_data {
        assert_eq!(expand(a.as_bytes()), b.as_bytes());
    }
}

#[test]
fn test_insert() {
    let a = [0, 1, 2, 3];
    let b = [0, 1, 42, 2, 3];
    assert_eq!(insert(&a, 42, 2), b);
}

#[test]
fn test_shuffle() {
    let key = "ARABESQUE";
    let alphabet = "ABCDEFGHIJKLMNOPQRSTUVWXYZ/-";
    let res = shuffle(key, alphabet);
    assert_eq!(res, "ACKVRDLWBFMXEGNYSHOZQIP/UJT-");
}

#[test]
fn test_shuffle_odd() {
    let key = "SUBWAY";
    let alphabet = "ABCDEFGHIJKLMNOPQRSTUVWXYZ/-";
    let res = shuffle(key, alphabet);
    assert_eq!(res, "SCIOXUDJPZBEKQ/WFLR-AGMTYHNV");
}

#[test]
fn test_shuffle_next() {
    let key = "ARABESQUE";
    let alphabet = "ABCDEFGHIJKLMNOPQRSTUVWXYZ/-";
    let res = shuffle_next(key, alphabet);
    assert_eq!(res, "ACKVRDLWBFMXEGNYSHOZQIP/UJT-");
}

#[test]
fn test_shuffle_next_odd() {
    let key = "SUBWAY";
    let alphabet = "ABCDEFGHIJKLMNOPQRSTUVWXYZ/-";
    let res = shuffle_next(key, alphabet);
    assert_eq!(res, "SCIOXUDJPZBEKQ/WFLR-AGMTYHNV");
}

#[test]
fn test_to_numeric() {
    let test_data = [
        ("ARABESQUE", vec![0, 6, 1, 2, 3, 7, 5, 8, 4]),
        ("PJRJJJJJJS", vec![7, 0, 8, 1, 2, 3, 4, 5, 6, 9]),
        ("AAABRAACADAABRA", vec![0, 1, 2, 9, 13, 3, 4, 11, 5, 12, 6, 7, 10, 14, 8]),
    ];
    for (s, key) in test_data {
        assert_eq!(to_numeric(s), key);
    }
}

#[test]
fn test_by_n() {
    let test_data = [
        (5, "ARABESQUE", "ARABE SQUE"),
        (4, "PJRJJJJJJS", "PJRJ JJJJ JS"),
        (5, "AAABRAACADAABRA", "AAABR AACAD AABRA"),
    ];
    for (n, in_str, out_str) in test_data {
        assert_eq!(by_n(in_str, n), out_str);
    }
}

#[test]
fn test_output_as_block() {
    let test_data = [
        ("ARABESQUE", "ARABE SQUE"),
        ("AAABRAACADAABRA", "AAABR AACAD AABRA"),
        ("ABCDE", "ABCDE"),
        ("ABCDEF", "ABCDE F"),
    ];
    for (in_str, out_str) in test_data {
        assert_eq!(output_as_block(in_str), out_str);
    }
}

#[test]
fn test_fix_double() {
    let test_data = [("ABCDEF", "ABCDEF"), ("AABCDE", "AQABCDE"), ("AAAAA", "AQAQAQAQA")];
    for (in_str, out_str) in test_data {
        assert_eq!(fix_double(in_str, 'Q'), out_str);
    }
}

#[test]
fn test_rank_all_equal_is_identity() {
    assert_eq!(to_numeric("AAAAA"), vec![0, 1, 2, 3, 4]);
}

#[test]
fn test_rank_distinct_is_alphabetical_inverse() {
    // "DAB": A is smallest (rank 0 at position 1), B next (rank 1 at
    // position 2), D last (rank 2 at position 0).
    assert_eq!(to_numeric("DAB"), vec![2, 0, 1]);
    assert_eq!(to_numeric("ZEBRAS"), vec![5, 2, 1, 3, 0, 4]);
}
