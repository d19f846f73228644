use editdist::distance::lev_rec;
use editdist::distance::lev_sub_rec;
use editdist::table::MemoMatrix;

#[test]
fn table_new_is_all_empty() {
    let m = MemoMatrix::new(3, 4);
    assert_eq!(m.get(0, 0), None);
    assert_eq!(m.get(2, 3), None);
    assert_eq!(m.get(1, 2), None);
}

#[test]
fn table_set_then_get() {
    let mut m = MemoMatrix::new(2, 3);
    m.set(1, 0, 7);
    assert_eq!(m.get(1, 0), Some(7));
    assert_eq!(m.get(0, 1), None);
    assert_eq!(m.get(0, 0), None);
}

#[test]
fn engine_cell_values_match_the_recurrence() {
    let s: Vec<char> = "annually".chars().collect();
    let t: Vec<char> = "annealing".chars().collect();
    let mut rect = MemoMatrix::new(s.len() + 1, t.len() + 1);
    // D(0, j) = j and D(i, 0) = i.
    assert_eq!(lev_rec(&mut rect, &s, &t, 0, 4), 4);
    assert_eq!(lev_rec(&mut rect, &s, &t, 5, 0), 5);
    // The full table corner is the whole-string distance.
    assert_eq!(lev_rec(&mut rect, &s, &t, s.len(), t.len()), 4);
    // A second read comes from the memo and agrees.
    assert_eq!(lev_rec(&mut rect, &s, &t, s.len(), t.len()), 4);
}

#[test]
fn engine_substring_row_zero_is_free() {
    let p: Vec<char> = "nana".chars().collect();
    let t: Vec<char> = "bananas".chars().collect();
    let mut rect = MemoMatrix::new(p.len() + 1, t.len() + 1);
    // S(0, j) = 0: skipping text before the match costs nothing.
    assert_eq!(lev_sub_rec(&mut rect, &p, &t, 0, 5), 0);
    // S(i, 0) = i: an empty text still costs the whole pattern prefix.
    assert_eq!(lev_sub_rec(&mut rect, &p, &t, 3, 0), 3);
    // "nana" aligns with "nana" inside "bananas" ending at index 6.
    assert_eq!(lev_sub_rec(&mut rect, &p, &t, 4, 6), 0);
}
