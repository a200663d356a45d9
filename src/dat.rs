use vstd::prelude::*;
use crate::bits::Bits;
use crate::context::FormalContext;
use crate::cxt::{decimal, is_white_space};
use crate::rows::{matrix_of, rows_have_len};

verus! {

/// The word `cur` as a list of words: none if it is empty.
pub open spec fn word_if_any(cur: Seq<char>) -> Seq<Seq<char>> {
    if cur.len() == 0 {
        Seq::empty()
    } else {
        seq![cur]
    }
}

/// The words of `s`, after a word `cur` already begun.
pub open spec fn tokens_after(s: Seq<char>, cur: Seq<char>) -> Seq<Seq<char>>
    decreases s.len(),
{
    if s.len() == 0 {
        word_if_any(cur)
    } else if is_white_space(s[0]) {
        word_if_any(cur) + tokens_after(s.drop_first(), Seq::empty())
    } else {
        tokens_after(s.drop_first(), cur.push(s[0]))
    }
}

/// The maximal runs of characters of `s` that are not white space, in order.
pub open spec fn tokens_of(s: Seq<char>) -> Seq<Seq<char>> {
    tokens_after(s, Seq::empty())
}

/// The default label of object `i`: `obj` and the decimal digits of `i`.
pub open spec fn object_name(i: usize) -> Seq<char> {
    seq!['o', 'b', 'j'] + decimal(i as nat)
}

/// Relies on `str::split_whitespace`: the non-empty pieces of a line between
/// runs of Unicode `White_Space`.
#[verifier::external_body]
fn split_tokens(s: &String) -> (r: Vec<String>)
    ensures
        r@.map_values(|t: String| t@) == tokens_of(s@),
{
    s.split_whitespace().map(|t| t.to_owned()).collect()
}

/// Relies on `format!` with `usize`'s `Display`: `obj` followed by the decimal digits of `i`.
#[verifier::external_body]
fn object_label(i: usize) -> (r: String)
    ensures
        r@ == object_name(i),
{
    format!("obj{}", i)
}

/// The words of each line.
pub open spec fn words_of(lines: Seq<String>) -> Seq<Seq<Seq<char>>> {
    lines.map_values(|s: String| tokens_of(s@))
}

/// The characters of each string of `v`.
pub open spec fn views_of(v: Seq<String>) -> Seq<Seq<char>> {
    v.map_values(|t: String| t@)
}

/// Word `a` occurs on one of the first `i` lines.
pub open spec fn seen(ws: Seq<Seq<Seq<char>>>, i: int, a: Seq<char>) -> bool {
    exists|p: int| 0 <= p < i && #[trigger] ws[p].contains(a)
}

/// Position `(i, t)` (line, word) comes before position `(i2, t2)` in reading order.
pub open spec fn reads_before(i: int, t: int, i2: int, t2: int) -> bool {
    i < i2 || (i == i2 && t < t2)
}

/// Some occurrence of word `a` comes before every occurrence of word `b`.
pub open spec fn first_seen_before(ws: Seq<Seq<Seq<char>>>, a: Seq<char>, b: Seq<char>) -> bool {
    exists|i: int, t: int|
        0 <= i < ws.len() && 0 <= t < ws[i].len() && ws[i][t] == a && forall|i2: int, t2: int|
            0 <= i2 < ws.len() && 0 <= t2 < ws[i2].len() && #[trigger] ws[i2][t2] == b ==> reads_before(i, t, i2, t2)
}

/// Whether `v` holds a string with the characters `x`, and where first.
fn find(v: &Vec<String>, x: &String) -> (r: Option<usize>)
    ensures
        match r {
            Some(k) => k < v@.len() && v@[k as int]@ == x@,
            None => forall|p: int| 0 <= p < v@.len() ==> (#[trigger] v@[p])@ != x@,
        },
{
    let mut k: usize = 0;
    while k < v.len()
        invariant
            k <= v@.len(),
            forall|p: int| 0 <= p < k ==> (#[trigger] v@[p])@ != x@,
        decreases v@.len() - k,
    {
        if v[k] == *x {
            return Some(k);
        }
        k = k + 1;
    }
    None
}

impl FormalContext<String, String> {
    /// Reads a context from the lines of a text in the `.dat` format: line `i`
    /// is object `obj<i>`, and lists the words naming its attributes. The
    /// attributes are the distinct words of the text, in the order in which
    /// they first occur.
    pub fn from_dat_lines(lines: &Vec<String>) -> (r: Self)
        ensures
            r.wf(),
            r.n() == lines@.len(),
            forall|i: int| 0 <= i < r.n() ==> (#[trigger] r.object_labels()[i])@ == object_name(i as usize),
            views_of(r.attribute_labels()).no_duplicates(),
            forall|i: int, t: int|
                0 <= i < r.n() && 0 <= t < words_of(lines@)[i].len() ==> views_of(r.attribute_labels()).contains(
                    #[trigger] words_of(lines@)[i][t],
                ),
            forall|j: int|
                0 <= j < r.m() ==> seen(words_of(lines@), r.n() as int, #[trigger] views_of(r.attribute_labels())[j]),
            forall|j: int, k: int|
                0 <= j < k < r.m() ==> first_seen_before(
                    words_of(lines@),
                    #[trigger] views_of(r.attribute_labels())[j],
                    #[trigger] views_of(r.attribute_labels())[k],
                ),
            forall|i: int, j: int|
                0 <= i < r.n() && 0 <= j < r.m() ==> #[trigger] r.rel(i, j) == words_of(lines@)[i].contains(
                    views_of(r.attribute_labels())[j],
                ),
    {
        let ghost ws = words_of(lines@);
        let n = lines.len();
        let mut words: Vec<Vec<String>> = Vec::new();
        let mut attributes: Vec<String> = Vec::new();
        let ghost mut pi: Seq<int> = Seq::empty();
        let ghost mut pt: Seq<int> = Seq::empty();
        let mut i: usize = 0;
        while i < n
            invariant
                n == lines@.len(),
                ws == words_of(lines@),
                i <= n,
                words@.len() == i,
                pi.len() == attributes@.len(),
                pt.len() == attributes@.len(),
                forall|j: int| 0 <= j < pi.len() ==> 0 <= #[trigger] pi[j] < i && 0 <= pt[j] < ws[pi[j]].len()
                    && ws[pi[j]][pt[j]] == views_of(attributes@)[j],
                forall|j: int, k: int| 0 <= j < k < pi.len() ==> #[trigger] reads_before(pi[j], pt[j], pi[k], pt[k]),
                forall|j: int, i2: int, t2: int|
                    0 <= j < pi.len() && 0 <= i2 < ws.len() && 0 <= t2 < ws[i2].len() && #[trigger] ws[i2][t2]
                        == #[trigger] views_of(attributes@)[j] ==> !reads_before(i2, t2, pi[j], pt[j]),
                forall|p: int| 0 <= p < i ==> views_of((#[trigger] words@[p])@) == ws[p],
                views_of(attributes@).no_duplicates(),
                forall|p: int, s: int| 0 <= p < i && 0 <= s < ws[p].len() ==> views_of(attributes@).contains(#[trigger] ws[p][s]),
                forall|j: int| 0 <= j < attributes@.len() ==> seen(ws, i as int, #[trigger] views_of(attributes@)[j]),
            decreases n - i,
        {
            let toks = split_tokens(&lines[i]);
            assert(ws[i as int] == tokens_of(lines@[i as int]@));
            let ghost tv = views_of(toks@);
            let mut t: usize = 0;
            while t < toks.len()
                invariant
                    n == lines@.len(),
                    ws == words_of(lines@),
                    i < n,
                    tv == views_of(toks@),
                    tv == ws[i as int],
                    t <= toks@.len(),
                    pi.len() == attributes@.len(),
                    pt.len() == attributes@.len(),
                    forall|j: int| 0 <= j < pi.len() ==> 0 <= #[trigger] pi[j] <= i && 0 <= pt[j] < ws[pi[j]].len()
                        && ws[pi[j]][pt[j]] == views_of(attributes@)[j] && reads_before(pi[j], pt[j], i as int, t as int),
                    forall|j: int, k: int| 0 <= j < k < pi.len() ==> #[trigger] reads_before(pi[j], pt[j], pi[k], pt[k]),
                    forall|j: int, i2: int, t2: int|
                        0 <= j < pi.len() && 0 <= i2 < ws.len() && 0 <= t2 < ws[i2].len() && #[trigger] ws[i2][t2]
                            == #[trigger] views_of(attributes@)[j] ==> !reads_before(i2, t2, pi[j], pt[j]),
                    views_of(attributes@).no_duplicates(),
                    forall|p: int, s: int| 0 <= p < i && 0 <= s < ws[p].len() ==> views_of(attributes@).contains(#[trigger] ws[p][s]),
                    forall|s: int| 0 <= s < t ==> views_of(attributes@).contains(#[trigger] ws[i as int][s]),
                    forall|j: int| 0 <= j < attributes@.len() ==> seen(ws, i + 1, #[trigger] views_of(attributes@)[j]),
                decreases toks@.len() - t,
            {
                assert(tv[t as int] == toks@[t as int]@);
                match find(&attributes, &toks[t]) {
                    Some(k) => {
                        assert(views_of(attributes@)[k as int] == ws[i as int][t as int]);
                    },
                    None => {
                        let ghost old_av = views_of(attributes@);
                        attributes.push(toks[t].clone());
                        proof {
                            let x = ws[i as int][t as int];
                            assert(views_of(attributes@) =~= old_av.push(x));
                            assert(!old_av.contains(x));
                            assert(views_of(attributes@).no_duplicates()) by {
                                assert forall|p: int, q: int| 0 <= p < q < views_of(attributes@).len() implies views_of(attributes@)[p]
                                    != views_of(attributes@)[q] by {
                                    if q == old_av.len() {
                                        assert(old_av[p] == views_of(attributes@)[p]);
                                    }
                                }
                            }
                            assert forall|w: Seq<char>| old_av.contains(w) implies views_of(attributes@).contains(w) by {
                                let k = choose|k: int| 0 <= k < old_av.len() && old_av[k] == w;
                                assert(views_of(attributes@)[k] == w);
                            }
                            assert(ws[i as int].contains(x));
                            assert(seen(ws, i + 1, x));
                            assert forall|j: int| 0 <= j < attributes@.len() implies seen(ws, i + 1, #[trigger] views_of(attributes@)[j]) by {
                                if j < old_av.len() {
                                    assert(views_of(attributes@)[j] == old_av[j]);
                                }
                            }
                            assert(views_of(attributes@)[old_av.len() as int] == x);
                            assert forall|i2: int, t2: int|
                                0 <= i2 < ws.len() && 0 <= t2 < ws[i2].len() && ws[i2][t2] == x implies !reads_before(
                                i2,
                                t2,
                                i as int,
                                t as int,
                            ) by {
                                if reads_before(i2, t2, i as int, t as int) {
                                    if i2 < i {
                                        assert(old_av.contains(ws[i2][t2]));
                                    } else {
                                        assert(old_av.contains(ws[i as int][t2]));
                                    }
                                }
                            }
                            pi = pi.push(i as int);
                            pt = pt.push(t as int);
                            assert forall|j: int, i2: int, t2: int|
                                0 <= j < pi.len() && 0 <= i2 < ws.len() && 0 <= t2 < ws[i2].len() && #[trigger] ws[i2][t2]
                                    == #[trigger] views_of(attributes@)[j] implies !reads_before(i2, t2, pi[j], pt[j]) by {
                                if j < old_av.len() {
                                    assert(views_of(attributes@)[j] == old_av[j]);
                                }
                            }
                        }
                    },
                }
                assert(views_of(attributes@).contains(ws[i as int][t as int]));
                t = t + 1;
            }
            words.push(toks);
            i = i + 1;
        }
        proof {
            let av = views_of(attributes@);
            assert forall|j: int, k: int| 0 <= j < k < av.len() implies first_seen_before(ws, #[trigger] av[j], #[trigger] av[k]) by {
                assert(reads_before(pi[j], pt[j], pi[k], pt[k]));
                assert(0 <= pi[j] < ws.len() && 0 <= pt[j] < ws[pi[j]].len() && ws[pi[j]][pt[j]] == av[j]);
                assert forall|i2: int, t2: int|
                    0 <= i2 < ws.len() && 0 <= t2 < ws[i2].len() && #[trigger] ws[i2][t2] == av[k] implies reads_before(
                    pi[j],
                    pt[j],
                    i2,
                    t2,
                ) by {
                    assert(!reads_before(i2, t2, pi[k], pt[k]));
                }
            }
        }
        let m = attributes.len();
        let ghost av = views_of(attributes@);
        let mut relation: Vec<Bits> = Vec::new();
        let mut objects: Vec<String> = Vec::new();
        let mut i: usize = 0;
        while i < n
            invariant
                n == lines@.len(),
                ws == words_of(lines@),
                words@.len() == n,
                m == attributes@.len(),
                av == views_of(attributes@),
                av.no_duplicates(),
                forall|p: int| 0 <= p < n ==> views_of((#[trigger] words@[p])@) == ws[p],
                i <= n,
                relation@.len() == i,
                objects@.len() == i,
                forall|p: int| 0 <= p < i ==> (#[trigger] objects@[p])@ == object_name(p as usize),
                forall|p: int| 0 <= p < i ==> (#[trigger] relation@[p])@ == Seq::new(m as nat, |j: int| ws[p].contains(av[j])),
            decreases n - i,
        {
            let mut row = Bits::repeat(false, m);
            let ghost tv = views_of(words@[i as int]@);
            let mut t: usize = 0;
            while t < words[i].len()
                invariant
                    i < n,
                    words@.len() == n,
                    m == attributes@.len(),
                    av == views_of(attributes@),
                    av.no_duplicates(),
                    tv == views_of(words@[i as int]@),
                    t <= words@[i as int]@.len(),
                    row@ == Seq::new(m as nat, |j: int| tv.subrange(0, t as int).contains(av[j])),
                decreases words@[i as int]@.len() - t,
            {
                let ghost before = row@;
                let ghost x = tv[t as int];
                assert(x == words@[i as int]@[t as int]@);
                let found = find(&attributes, &words[i][t]);
                match found {
                    Some(j) => {
                        row.set(j, true);
                    },
                    None => {},
                }
                proof {
                    assert(tv.subrange(0, t + 1) =~= tv.subrange(0, t as int).push(x));
                    assert forall|j: int| 0 <= j < m implies row@[j] == tv.subrange(0, t + 1).contains(av[j]) by {
                        if tv.subrange(0, t as int).contains(av[j]) {
                            let s = choose|s: int| 0 <= s < t && #[trigger] tv.subrange(0, t as int)[s] == av[j];
                            assert(tv.subrange(0, t + 1)[s] == av[j]);
                        }
                        if tv.subrange(0, t + 1).contains(av[j]) {
                            let s = choose|s: int| 0 <= s < t + 1 && #[trigger] tv.subrange(0, t + 1)[s] == av[j];
                            if s < t {
                                assert(tv.subrange(0, t as int)[s] == av[j]);
                            }
                        }
                        assert(before[j] == tv.subrange(0, t as int).contains(av[j]));
                        match found {
                            Some(k) => {
                                assert(av[k as int] == x);
                                assert(row@[j] == (before[j] || j == k));
                                if av[j] == x {
                                    assert(k == j);
                                }
                                if j == k {
                                    assert(tv.subrange(0, t + 1)[t as int] == av[j]);
                                }
                            },
                            None => {
                                assert(row@[j] == before[j]);
                                assert(attributes@[j]@ == av[j]);
                                assert(av[j] != x);
                            },
                        }
                    }
                    assert(row@ =~= Seq::new(m as nat, |j: int| tv.subrange(0, t + 1).contains(av[j])));
                }
                t = t + 1;
            }
            assert(tv.subrange(0, tv.len() as int) =~= tv);
            assert(tv == ws[i as int]);
            relation.push(row);
            objects.push(object_label(i));
            i = i + 1;
        }
        assert(rows_have_len(matrix_of(relation@), m as nat));
        let r = FormalContext::new(objects, attributes, relation);
        assert forall|p: int, j: int| 0 <= p < r.n() && 0 <= j < r.m() implies #[trigger] r.rel(p, j) == ws[p].contains(
            views_of(r.attribute_labels())[j],
        ) by {
            assert(r.rows()[p] == relation@[p]@);
        }
        r
    }
}

} // verus!
