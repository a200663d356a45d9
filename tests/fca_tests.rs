use fca::cxt::CxtError;
use fca::{is_subset, redundant_row, Bits, FormalContext};

fn bits(v: &[u8]) -> Bits {
    let b: Vec<bool> = v.iter().map(|&x| x == 1).collect();
    Bits::from_bools(&b)
}

fn context(objects: Vec<&'static str>, attributes: Vec<&'static str>, rows: &[&[u8]]) -> FormalContext<&'static str, &'static str> {
    FormalContext::new(objects, attributes, rows.iter().map(|r| bits(r)).collect())
}

fn rows_of<A, B>(c: &FormalContext<A, B>) -> Vec<Vec<bool>> {
    (0..c.num_objects()).map(|i| c.get_object_intent(i).to_bools()).collect()
}

#[test]
fn test_is_subset() {
    let a = bits(&[1, 0, 1]);
    let b = bits(&[1, 1, 1]);
    assert!(is_subset(&a, &b));
    assert!(!is_subset(&b, &a));
}

#[test]
fn test_reduction() {
    let mut context = context(
        vec!["a", "b", "c"],
        vec!["1", "2", "3"],
        &[&[1, 0, 1], &[1, 1, 1], &[0, 1, 1]],
    );
    assert!(!context.is_reduced());
    context.reduce();
    assert!(rows_of(&context) == vec![vec![true, false], vec![false, true]]);
    assert!(context.is_reduced());
}

#[test]
fn test_pcbo_1() {
    let context = context(
        vec!["a", "b", "c"],
        vec!["1", "2", "3"],
        &[&[1, 0, 1], &[1, 1, 1], &[0, 1, 1]],
    );
    assert_eq!(context.num_concepts(), 4);
}

fn lives_in_water() -> FormalContext<&'static str, &'static str> {
    context(
        vec!["fish leech", "bream", "frog", "dog", "water weeds", "reed", "bean", "corn"],
        vec![
            "needs water to live",
            "lives in water",
            "lives on land",
            "needs chlorophyll",
            "dicotyledon",
            "monocotyledon",
            "can move",
            "has limbs",
            "breast feeds",
        ],
        &[
            &[1, 1, 0, 0, 0, 0, 1, 0, 0],
            &[1, 1, 0, 0, 0, 0, 1, 1, 0],
            &[1, 1, 1, 0, 0, 0, 1, 1, 0],
            &[1, 0, 1, 0, 0, 0, 1, 1, 1],
            &[1, 1, 0, 1, 0, 1, 0, 0, 0],
            &[1, 1, 1, 1, 0, 1, 0, 0, 0],
            &[1, 0, 1, 1, 1, 0, 0, 0, 0],
            &[1, 0, 1, 1, 0, 1, 0, 0, 0],
        ],
    )
}

#[test]
fn test_pcbo_2() {
    assert_eq!(lives_in_water().num_concepts(), 19);
}

fn s1() -> FormalContext<&'static str, &'static str> {
    context(
        vec!["a", "b", "c"],
        vec!["1", "2", "3"],
        &[&[1, 0, 1], &[1, 1, 1], &[0, 1, 1]],
    )
}

fn bools(v: &[u8]) -> Vec<bool> {
    v.iter().map(|&x| x == 1).collect()
}

#[test]
fn top_concept_of_small_context() {
    let c = s1();
    let top = c.max_concept_raw();
    assert_eq!(top.extent.to_bools(), bools(&[1, 1, 1]));
    assert_eq!(top.intent.to_bools(), bools(&[0, 0, 1]));
    let bound = c.max_concept();
    assert!(bound.validate());
}

#[test]
fn reduction_keeps_concept_count() {
    let mut c = s1();
    assert_eq!(c.num_concepts(), 4);
    c.reduce();
    assert_eq!(c.num_concepts(), 4);
    assert_eq!(c.objects, vec!["a", "c"]);
    assert_eq!(c.attributes, vec!["1", "2"]);
    let before = rows_of(&c);
    c.reduce();
    assert_eq!(rows_of(&c), before);
    assert!(c.is_reduced());
    assert!(c.validate());
}

#[test]
fn contranomial_scale_has_all_subsets() {
    let c = FormalContext::contranomial_scale(vec!["w", "x", "y", "z"]);
    assert_eq!(
        rows_of(&c),
        vec![bools(&[0, 1, 1, 1]), bools(&[1, 0, 1, 1]), bools(&[1, 1, 0, 1]), bools(&[1, 1, 1, 0])]
    );
    assert!(c.validate());
    assert_eq!(c.num_concepts(), 16);
}

#[test]
fn empty_relation_has_two_concepts() {
    let c: FormalContext<&str, &str> = FormalContext::zero_context(vec!["a", "b", "c"], vec!["1", "2", "3"]);
    let all = c.all_concepts_raw();
    assert_eq!(all.len(), 2);
    assert_eq!(all[0].extent.to_bools(), bools(&[1, 1, 1]));
    assert_eq!(all[0].intent.to_bools(), bools(&[0, 0, 0]));
    assert_eq!(all[1].extent.to_bools(), bools(&[0, 0, 0]));
    assert_eq!(all[1].intent.to_bools(), bools(&[1, 1, 1]));
}

#[test]
fn full_relation_has_one_concept() {
    let c = context(vec!["a", "b", "c"], vec!["1", "2", "3"], &[&[1, 1, 1], &[1, 1, 1], &[1, 1, 1]]);
    let all = c.all_concepts_raw();
    assert_eq!(all.len(), 1);
    assert_eq!(all[0].extent.to_bools(), bools(&[1, 1, 1]));
    assert_eq!(all[0].intent.to_bools(), bools(&[1, 1, 1]));
    assert_eq!(c.num_concepts(), 1);
}

#[test]
fn every_listed_pair_is_a_distinct_concept() {
    let c = lives_in_water();
    let all = c.all_concepts();
    assert_eq!(all.len(), 19);
    for x in &all {
        assert!(x.validate());
        assert_eq!(c.induce_l(&x.intent).to_bools(), x.extent.to_bools());
        assert_eq!(c.induce_r(&x.extent).to_bools(), x.intent.to_bools());
    }
    for p in 0..all.len() {
        for q in (p + 1)..all.len() {
            assert!(!all[p].extent.equals(&all[q].extent));
            assert!(!all[p].same_concept(&all[q]));
        }
    }
}

#[test]
fn closures_contain_their_arguments() {
    let c = lives_in_water();
    let a = bits(&[0, 1, 1, 0, 0, 0, 0, 0]);
    let b = c.induce_r(&a);
    assert_eq!(b.to_bools(), bools(&[1, 1, 0, 0, 0, 0, 1, 1, 0]));
    let a2 = c.induce_l(&b);
    assert_eq!(a2.to_bools(), bools(&[0, 1, 1, 0, 0, 0, 0, 0]));
    assert!(is_subset(&a, &a2));
    assert!(c.induce_r(&a2).equals(&b));
    let i = bits(&[0, 0, 0, 0, 0, 0, 0, 0, 1]);
    let e = c.induce_l(&i);
    assert_eq!(e.to_bools(), bools(&[0, 0, 0, 1, 0, 0, 0, 0]));
    let i2 = c.induce_r(&e);
    assert_eq!(i2.to_bools(), bools(&[1, 0, 1, 0, 0, 0, 1, 1, 1]));
    assert!(is_subset(&i, &i2));
}

#[test]
fn empty_arguments_derive_to_all_ones() {
    let c = s1();
    assert_eq!(c.induce_r(&bits(&[0, 0, 0])).to_bools(), bools(&[1, 1, 1]));
    assert_eq!(c.induce_l(&bits(&[0, 0, 0])).to_bools(), bools(&[1, 1, 1]));
}

#[test]
fn edits_keep_both_copies_in_step() {
    let mut c = s1();
    c.modify_relation_idx(0, 1, true);
    assert!(c.get_relation_idx(0, 1));
    assert!(c.get_attribute_extent(1).get(0));
    c.modify_relation(&"c", &"3", false);
    assert!(!c.get_relation(&"c", &"3"));
    assert!(!c.get_attribute_extent(2).get(2));
    assert!(c.get_relation(&"b", &"2"));
    assert!(c.validate());
    assert_eq!(rows_of(&c), vec![bools(&[1, 1, 1]), bools(&[1, 1, 1]), bools(&[0, 1, 0])]);
}

#[test]
fn subset_needs_equal_lengths() {
    assert!(!is_subset(&bits(&[1, 0]), &bits(&[1, 0, 1])));
    assert!(is_subset(&bits(&[]), &bits(&[])));
    assert!(is_subset(&bits(&[0, 0]), &bits(&[0, 1])));
}

#[test]
fn subset_matches_meet_and_join() {
    let pairs: [(&[u8], &[u8]); 3] = [(&[1, 0, 1], &[1, 1, 1]), (&[1, 1, 0], &[1, 0, 1]), (&[0, 0, 0], &[0, 1, 0])];
    for (x, y) in pairs {
        let a = bits(x);
        let b = bits(y);
        let mut meet = a.duplicate();
        meet.and_assign(&b);
        let join: Vec<bool> = x.iter().zip(y.iter()).map(|(&p, &q)| p == 1 || q == 1).collect();
        assert_eq!(is_subset(&a, &b), meet.equals(&a));
        assert_eq!(is_subset(&a, &b), join == bools(y));
    }
}

#[test]
fn redundant_rows_are_found_first_to_last() {
    let x = vec![bits(&[1, 0, 1]), bits(&[1, 1, 1]), bits(&[0, 1, 1])];
    assert_eq!(redundant_row(&x), Some(1));
    let y = vec![bits(&[1, 0]), bits(&[0, 1])];
    assert_eq!(redundant_row(&y), None);
    let z = vec![bits(&[1, 0, 0]), bits(&[1, 1, 0]), bits(&[1, 0, 1])];
    assert_eq!(redundant_row(&z), Some(0));
    assert_eq!(redundant_row(&vec![]), None);
}

#[test]
fn all_ones_row_without_supersets_is_redundant() {
    let x = vec![bits(&[1, 1]), bits(&[1, 0])];
    assert_eq!(redundant_row(&x), Some(0));
    let y = vec![bits(&[0, 1]), bits(&[1, 0])];
    assert_eq!(redundant_row(&y), None);
}

#[test]
fn children_of_the_top_node() {
    let c = s1();
    let top = c.max_concept_raw();
    let kids = c.cbo_children(&top, 0);
    let got: Vec<(Vec<bool>, Vec<bool>, usize)> =
        kids.iter().map(|(k, y)| (k.extent.to_bools(), k.intent.to_bools(), *y)).collect();
    assert_eq!(
        got,
        vec![
            (bools(&[1, 1, 0]), bools(&[1, 0, 1]), 1),
            (bools(&[0, 1, 1]), bools(&[0, 1, 1]), 2),
        ]
    );
}

#[test]
fn concepts_compare_by_extent() {
    let c = s1();
    let all = c.all_concepts();
    let top = &all[0];
    let mut found_less = false;
    for x in &all {
        if x.extent.to_bools() == bools(&[1, 1, 0]) {
            assert_eq!(x.compare(top), Some(std::cmp::Ordering::Less));
            assert_eq!(top.compare(x), Some(std::cmp::Ordering::Greater));
            found_less = true;
        }
        if x.extent.to_bools() == bools(&[0, 1, 1]) {
            for y in &all {
                if y.extent.to_bools() == bools(&[1, 1, 0]) {
                    assert_eq!(x.compare(y), None);
                }
            }
        }
    }
    assert!(found_less);
    assert_eq!(top.compare(top), Some(std::cmp::Ordering::Equal));
    let other = lives_in_water().max_concept();
    assert!(!top.same_concept(&other));
}

fn lines(v: &[&str]) -> Vec<String> {
    v.iter().map(|s| s.to_string()).collect()
}

#[test]
fn reads_cxt_text() {
    let text = lines(&["B", "", "3", " 2 ", "", "a", " b ", "c", "x", "y", "X.", " XX", ".X"]);
    let c = FormalContext::from_cxt_lines(&text).unwrap();
    assert_eq!(c.objects, vec!["a", "b", "c"]);
    assert_eq!(c.attributes, vec!["x", "y"]);
    assert_eq!(rows_of(&c), vec![bools(&[1, 0]), bools(&[1, 1]), bools(&[0, 1])]);
    assert!(c.validate());
    assert_eq!(c.num_concepts(), 4);
}

#[test]
fn rejects_faulty_cxt_text() {
    assert_eq!(FormalContext::from_cxt_lines(&lines(&["B", ""])).err(), Some(CxtError::MissingLine(2)));
    assert_eq!(FormalContext::from_cxt_lines(&lines(&[])).err(), Some(CxtError::MissingLine(0)));
    assert_eq!(FormalContext::from_cxt_lines(&lines(&["B"])).err(), Some(CxtError::MissingLine(1)));
    assert_eq!(
        FormalContext::from_cxt_lines(&lines(&["Q", "", "0", "0", ""])).err(),
        Some(CxtError::BadHeader(0))
    );
    assert_eq!(
        FormalContext::from_cxt_lines(&lines(&["B", "x", "0", "0", ""])).err(),
        Some(CxtError::BadHeader(1))
    );
    assert_eq!(
        FormalContext::from_cxt_lines(&lines(&["B", "", "0", "0", "y"])).err(),
        Some(CxtError::BadHeader(4))
    );
    assert!(FormalContext::from_cxt_lines(&lines(&[" B ", "  ", "0", "0", ""])).is_ok());
    assert_eq!(FormalContext::from_cxt_lines(&lines(&["B", "", "three", "2"])).err(), Some(CxtError::BadCount(2)));
    assert_eq!(FormalContext::from_cxt_lines(&lines(&["B", "", "1", "-2"])).err(), Some(CxtError::BadCount(3)));
    assert_eq!(FormalContext::from_cxt_lines(&lines(&["B", "", "1"])).err(), Some(CxtError::MissingLine(3)));
    assert_eq!(FormalContext::from_cxt_lines(&lines(&["B", "", "1", "1"])).err(), Some(CxtError::MissingLine(4)));
    assert_eq!(
        FormalContext::from_cxt_lines(&lines(&["B", "", "1", "1", "", "a"])).err(),
        Some(CxtError::MissingLine(6))
    );
    assert_eq!(
        FormalContext::from_cxt_lines(&lines(&["B", "", "2", "1", "", "a", "b", "x", "X"])).err(),
        Some(CxtError::MissingLine(9))
    );
    assert_eq!(
        FormalContext::from_cxt_lines(&lines(&["B", "", "1", "2", "", "a", "x", "y", "X0"])).err(),
        Some(CxtError::BadCharacter(8))
    );
    assert_eq!(
        FormalContext::from_cxt_lines(&lines(&["B", "", "1", "2", "", "a", "x", "y", "X"])).err(),
        Some(CxtError::BadRowLength(8))
    );
    assert_eq!(
        FormalContext::from_cxt_lines(&lines(&["B", "", "1", "1", "", "a", "x", "é"])).err(),
        Some(CxtError::BadCharacter(7))
    );
}

#[test]
fn reads_dat_text() {
    let text = lines(&["1 2", "  2 3  ", "", "3 1 1"]);
    let c = FormalContext::from_dat_lines(&text);
    assert_eq!(c.objects, vec!["obj0", "obj1", "obj2", "obj3"]);
    assert_eq!(c.attributes, vec!["1", "2", "3"]);
    assert_eq!(
        rows_of(&c),
        vec![bools(&[1, 1, 0]), bools(&[0, 1, 1]), bools(&[0, 0, 0]), bools(&[1, 0, 1])]
    );
    assert!(c.validate());
}

#[test]
fn random_context_has_requested_shape() {
    let c = FormalContext::random(5, 7);
    assert_eq!(c.objects, vec![0, 1, 2, 3, 4]);
    assert_eq!(c.attributes, vec![0, 1, 2, 3, 4, 5, 6]);
    assert!(c.validate());
    assert!(c.num_concepts() >= 1);
    assert!(c.num_concepts() <= 32);
}

#[test]
fn bit_vector_operations() {
    let mut b = bits(&[1, 0, 1, 1]);
    assert_eq!(b.len(), 4);
    assert_eq!(b.count_ones(), 3);
    assert_eq!(b.ones(), vec![0, 2, 3]);
    assert_eq!(b.zeros(), vec![1]);
    assert!(b.prefix_equals(&bits(&[1, 0, 0, 0]), 2));
    assert!(!b.prefix_equals(&bits(&[1, 0, 0, 0]), 3));
    assert!(b.remove(2));
    assert_eq!(b.to_bools(), bools(&[1, 0, 1]));
    b.push(false);
    b.set(1, true);
    assert_eq!(b.to_bools(), bools(&[1, 1, 1, 0]));
    let mut a = Bits::repeat(true, 4);
    a.and_assign(&bits(&[0, 1, 1]));
    assert_eq!(a.to_bools(), bools(&[0, 1, 1, 0]));
    assert_eq!(Bits::new().len(), 0);
}

#[test]
fn cxt_round_trip_keeps_the_matrix() {
    let text = lines(&["B", "", "3", "2", "", "a", "b", "c", "x", "y", "X.", "XX", ".X"]);
    let c = FormalContext::from_cxt_lines(&text).unwrap();
    let written = c.to_cxt_lines();
    assert_eq!(written, text);
    let back = FormalContext::from_cxt_lines(&written).unwrap();
    assert_eq!(rows_of(&back), rows_of(&c));
    assert_eq!(back.objects, c.objects);
    assert_eq!(back.attributes, c.attributes);
}

#[test]
fn writes_large_counts_in_decimal() {
    let objects: Vec<String> = (0..12).map(|i| format!("o{}", i)).collect();
    let c = FormalContext::zero_context(objects, vec!["p".to_string()]);
    let written = c.to_cxt_lines();
    assert_eq!(written[2], "12");
    assert_eq!(written[3], "1");
    assert_eq!(written[17], "p");
    assert_eq!(written[18], ".");
    let back = FormalContext::from_cxt_lines(&written).unwrap();
    assert_eq!(back.num_objects(), 12);
    assert_eq!(back.num_concepts(), 2);
}

#[test]
fn concept_count_within_bounds() {
    for c in [s1(), lives_in_water()] {
        let n = c.num_objects();
        let m = c.num_attributes();
        let k = c.num_concepts();
        assert!(k >= 1);
        assert!(k <= 1usize << n.min(m));
    }
}

#[test]
fn labels_by_index() {
    let c = s1();
    assert_eq!(*c.object_label(2), "c");
    assert_eq!(*c.attribute_label(0), "1");
    let d = c.duplicate();
    assert_eq!(rows_of(&d), rows_of(&c));
    let shared = c.arc();
    assert_eq!(shared.num_objects(), 3);
}

#[test]
fn dat_repeated_words_count_once() {
    let c = FormalContext::from_dat_lines(&lines(&["b a b", "a"]));
    assert_eq!(c.attributes, vec!["b", "a"]);
    assert_eq!(rows_of(&c), vec![bools(&[1, 1]), bools(&[0, 1])]);
    assert_eq!(c.num_concepts(), 2);
}

#[test]
fn counts_incidences() {
    assert_eq!(s1().num_incidences(), 7);
    assert_eq!(lives_in_water().num_incidences(), 34);
    let z: FormalContext<&str, &str> = FormalContext::zero_context(vec!["a"], vec!["x", "y"]);
    assert_eq!(z.num_incidences(), 0);
}

#[test]
fn cxt_counts_and_labels_follow_std_parsing() {
    let text = lines(&["B", "", "+1", "\t1\u{3000}", "", "\u{a0}obj one ", "attr", " X\u{2003}"]);
    let c = FormalContext::from_cxt_lines(&text).unwrap();
    assert_eq!(c.objects, vec!["obj one"]);
    assert_eq!(c.attributes, vec!["attr"]);
    assert_eq!(rows_of(&c), vec![bools(&[1])]);
    assert_eq!(
        FormalContext::from_cxt_lines(&lines(&["B", "", "1_0", "1"])).err(),
        Some(CxtError::BadCount(2))
    );
    assert_eq!(
        FormalContext::from_cxt_lines(&lines(&["B", "", "+", "1"])).err(),
        Some(CxtError::BadCount(2))
    );
    assert_eq!(
        FormalContext::from_cxt_lines(&lines(&["B", "", "99999999999999999999999", "1"])).err(),
        Some(CxtError::BadCount(2))
    );
}

#[test]
fn concept_operators_follow_extent_order() {
    let c = s1();
    let all = c.all_concepts();
    let top = all[0].clone();
    assert!(top == all[0]);
    for x in &all[1..] {
        assert!(*x != top);
        assert!(*x < top);
        assert!(top > *x);
        assert_eq!(x.partial_cmp(&top), Some(std::cmp::Ordering::Less));
    }
    let other = lives_in_water().max_concept();
    assert_eq!(top.partial_cmp(&other), None);
    assert!(!format!("{:?}", top.extent).is_empty());
}

#[test]
fn contexts_compare_and_clone() {
    let c = s1();
    let d = c.clone();
    assert!(c == d);
    let mut e = c.clone();
    e.modify_relation_idx(0, 0, false);
    assert!(c != e);
    assert!(c.same_as(&d));
    assert!(!c.same_as(&e));
    let b = bits(&[1, 0]);
    assert_eq!(b.clone(), b);
}

#[test]
fn dat_attributes_in_first_seen_order() {
    let c = FormalContext::from_dat_lines(&lines(&["z\u{2003}y", "x\ty  z", "w"]));
    assert_eq!(c.attributes, vec!["z", "y", "x", "w"]);
    assert_eq!(
        rows_of(&c),
        vec![bools(&[1, 1, 0, 0]), bools(&[1, 1, 1, 0]), bools(&[0, 0, 0, 1])]
    );
}
