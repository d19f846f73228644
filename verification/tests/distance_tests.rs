use editdist::distance::levenshtein;

#[test]
fn distance_empty_empty() {
    assert_eq!(levenshtein("", ""), 0);
}

#[test]
fn distance_empty_to_single() {
    assert_eq!(levenshtein("", "a"), 1);
}

#[test]
fn distance_equal_single() {
    assert_eq!(levenshtein("a", "a"), 0);
}

#[test]
fn distance_annually_annealing() {
    // Substitute u->e, l->i, y->n and insert the final g: four edits, and
    // the recurrence finds nothing cheaper.
    assert_eq!(levenshtein("annually", "annealing"), 4);
}

#[test]
fn distance_equal_multibyte() {
    assert_eq!(levenshtein("aÖbc", "aÖbc"), 0);
}

#[test]
fn distance_multibyte_substitution() {
    assert_eq!(levenshtein("abcö", "abcü"), 1);
}

#[test]
fn distance_to_self_is_zero() {
    for s in ["", "x", "kitten", "tyrannosaurus rex", "annually"] {
        assert_eq!(levenshtein(s, s), 0);
    }
}

#[test]
fn distance_is_symmetric() {
    let pairs = [
        ("kitten", "sitting"),
        ("annually", "annealing"),
        ("", "abc"),
        ("abcö", "abcü"),
    ];
    for (a, b) in pairs {
        assert_eq!(levenshtein(a, b), levenshtein(b, a));
    }
}

#[test]
fn distance_from_empty_is_length() {
    assert_eq!(levenshtein("", "xyz"), 3);
    assert_eq!(levenshtein("xyz", ""), 3);
    assert_eq!(levenshtein("", "aÖbc"), 4);
}

#[test]
fn distance_triangle_concrete() {
    let words = ["kitten", "sitting", "mitten", "", "sitten"];
    for s in words {
        for t in words {
            for u in words {
                assert!(levenshtein(s, u) <= levenshtein(s, t) + levenshtein(t, u));
            }
        }
    }
}

#[test]
fn distance_single_insert_and_delete() {
    assert_eq!(levenshtein("abc", "abcd"), 1);
    assert_eq!(levenshtein("abcd", "abc"), 1);
    assert_eq!(levenshtein("abc", "axc"), 1);
}

#[test]
fn distance_kitten_sitting() {
    assert_eq!(levenshtein("kitten", "sitting"), 3);
}
