//! The generic distances over symbol vectors.

use bkstring::dist::{
    convert_hex, convert_str, function, hamming_dist, jaccard_dist, levenshtein_dist,
    modified_jaccard_dist, run_func,
};

#[test]
fn convert_str_test() {
    assert_eq!(convert_str("johndoe1").len(), 8);
    assert_eq!(convert_str("johndoe\u{263a}").len(), 8);
}

#[test]
fn convert_hex_test() {
    assert_eq!(convert_hex("1".to_string()), [1, 0, 0, 0, 0, 0, 0, 0]);
    assert_eq!(
        convert_hex("11".to_string()),
        [1, 0, 0, 0, 0, 0, 0, 0, 1, 0, 0, 0, 0, 0, 0, 0]
    );
}

#[test]
fn len_check_test() {
    let v1: Vec<String> = vec![];
    let v2: Vec<String> = vec![];
    let v_full: Vec<String> = vec!["foo".to_string()];

    assert_eq!(run_func(&function, v1.clone(), v2.clone(), 0, 1), 0);
    assert_eq!(run_func(&function, v_full.clone(), v2.clone(), 0, 1), 1);
    assert_eq!(run_func(&function, v1.clone(), v_full.clone(), 0, 1), 1);
}

#[test]
fn dist_levenshtein_dist_test_samples() {
    assert_eq!(levenshtein_dist(convert_str("foo"), convert_str("food")), 1);
    assert_eq!(levenshtein_dist(convert_str("foo"), convert_str("bar")), 3);
    assert_eq!(levenshtein_dist(convert_str("foo"), convert_str("foe")), 1);
}

#[test]
fn dist_levenshtein_dist_test_unicode() {
    assert_eq!(levenshtein_dist(convert_str("johndoe1"), convert_str("johndoe\u{263a}")), 1);
    assert_eq!(levenshtein_dist(convert_str("johndoe1"), convert_str("johndoe\u{263a}1")), 1);
    assert_eq!(
        levenshtein_dist(convert_str("johndoe1"), convert_str("johndoe\u{263a}\u{263a}")),
        2
    );
    assert_eq!(levenshtein_dist(convert_str("johndoe\u{263a}"), convert_str("johndoe1")), 1);
}

#[test]
fn hamming_dist_test() {
    assert_eq!(hamming_dist(convert_str("foo"), convert_str("bar")), 3);
    assert_eq!(hamming_dist(convert_str(""), convert_str("")), 0);
    assert_eq!(hamming_dist(convert_str("foo"), convert_str("")), 3);
    assert_eq!(hamming_dist(convert_str(""), convert_str("bar")), 3);
    assert_eq!(hamming_dist(convert_str("foo"), convert_str("foe")), 1);
}

#[test]
fn jaccard_dist_test() {
    assert_eq!(jaccard_dist(convert_str("foo"), convert_str("bar")), 1_000_000);
    assert_eq!(jaccard_dist(convert_str("bar"), convert_str("ba")), 333_334);
    assert_eq!(jaccard_dist(convert_str("bar"), convert_str("baz")), 500_000);
    assert_eq!(jaccard_dist(convert_str("GG"), convert_str("GGGG")), 0);
    assert_eq!(jaccard_dist(convert_str("GGGG"), convert_str("GG")), 0);
    assert_eq!(jaccard_dist(convert_str("fooba 1234"), convert_str("fooba1234")), 111_112);
}

#[test]
fn dist_modified_jaccard_dist_test() {
    assert_eq!(modified_jaccard_dist(convert_str("foo"), convert_str("bar")), 1_000_000);
    assert_eq!(modified_jaccard_dist(convert_str("bar"), convert_str("ba")), 333_334);
    assert_eq!(modified_jaccard_dist(convert_str("bar"), convert_str("baz")), 500_000);
    assert_eq!(modified_jaccard_dist(convert_str("GG"), convert_str("GGGG")), 500_000);
    assert_eq!(modified_jaccard_dist(convert_str("GGGG"), convert_str("GG")), 500_000);
    assert_eq!(modified_jaccard_dist(convert_str("fooba 1234"), convert_str("fooba1234")), 100_000);
}

#[test]
fn hamming_dist_test_edges() {
    assert_eq!(hamming_dist(convert_hex("".to_string()), convert_hex("".to_string())), 0);
    assert_eq!(hamming_dist(convert_hex("".to_string()), convert_hex("a".to_string())), 8);
    assert_eq!(hamming_dist(convert_hex("a".to_string()), convert_hex("".to_string())), 8);
    assert_eq!(hamming_dist(convert_hex("aa".to_string()), convert_hex("a".to_string())), 16);
}

#[test]
fn hamming_dist_test_sample() {
    assert_eq!(
        hamming_dist(
            convert_hex("0590eb7e1129fa5b".to_string()),
            convert_hex("435e9db1634baca2".to_string())
        ),
        36
    );
    assert_eq!(
        hamming_dist(
            convert_hex("0590eb7e1129fa5b".to_string()),
            convert_hex("e13c832b7ce2720f".to_string())
        ),
        30
    );
    assert_eq!(
        hamming_dist(
            convert_hex("0590eb7e1129fa5b".to_string()),
            convert_hex("cd87c969b794125a".to_string())
        ),
        28
    );
    assert_eq!(
        hamming_dist(
            convert_hex("0590eb7e1129fa5b".to_string()),
            convert_hex("096d864c93b396b7".to_string())
        ),
        32
    );
    assert_eq!(
        hamming_dist(
            convert_hex("0590eb7e1129fa5b".to_string()),
            convert_hex("6dc3693d11d0da4b".to_string())
        ),
        20
    );
    assert_eq!(
        hamming_dist(
            convert_hex("0590eb7e1129fa5b".to_string()),
            convert_hex("4f6ad94847cd2539".to_string())
        ),
        34
    );
    assert_eq!(
        hamming_dist(
            convert_hex("0590eb7e1129fa5b".to_string()),
            convert_hex("33edac42c731b135".to_string())
        ),
        34
    );
    assert_eq!(
        hamming_dist(
            convert_hex("0590eb7e1129fa5b".to_string()),
            convert_hex("9327939737447c1c".to_string())
        ),
        34
    );
    assert_eq!(
        hamming_dist(
            convert_hex("0590eb7e1129fa5b".to_string()),
            convert_hex("5fa9e49021de9176".to_string())
        ),
        36
    );
    assert_eq!(
        hamming_dist(
            convert_hex("0590eb7e1129fa5b".to_string()),
            convert_hex("a991569a1a66ed99".to_string())
        ),
        30
    );
    assert_eq!(
        hamming_dist(
            convert_hex("0590eb7e1129fa5b".to_string()),
            convert_hex("eb90ed295a62b465".to_string())
        ),
        30
    );
    assert_eq!(
        hamming_dist(
            convert_hex("0590eb7e1129fa5b".to_string()),
            convert_hex("4d67581a3f97283c".to_string())
        ),
        36
    );
    assert_eq!(
        hamming_dist(
            convert_hex("0590eb7e1129fa5b".to_string()),
            convert_hex("87506bfe01a4f84f".to_string())
        ),
        14
    );
    assert_eq!(
        hamming_dist(
            convert_hex("0590eb7e1129fa5b".to_string()),
            convert_hex("9fade410215e517e".to_string())
        ),
        34
    );
    assert_eq!(
        hamming_dist(
            convert_hex("0590eb7e1129fa5b".to_string()),
            convert_hex("d7bbcb6c3a369040".to_string())
        ),
        28
    );
}

#[test]
fn hamming_dist_test_capital() {
    assert_eq!(
        hamming_dist(
            convert_hex("0590EB7E1129FA5B".to_string()),
            convert_hex("D7BBCB6C3A369040".to_string())
        ),
        28
    );
    assert_eq!(
        hamming_dist(
            convert_hex("0590EB7E1129FA5B".to_string()),
            convert_hex("d7bbcb6c3a369040".to_string())
        ),
        28
    );
    assert_eq!(
        hamming_dist(
            convert_hex("0590eb7e1129fa5b".to_string()),
            convert_hex("D7BBCB6C3A369040".to_string())
        ),
        28
    );
}
