//! Lists of texts: putting them in order, and joining them.
use vstd::prelude::*;
use vstd::relations::{antisymmetric, reflexive, sorted_by, strongly_connected, total_ordering, transitive};

verus! {

/// `a` does not come after `b`: the first character in which they differ decides, and a text comes
/// after those that it begins with.
pub open spec fn not_after(a: Seq<char>, b: Seq<char>) -> bool
    decreases a.len(),
{
    if a.len() == 0 {
        true
    } else if b.len() == 0 {
        false
    } else if a[0] != b[0] {
        (a[0] as int) < (b[0] as int)
    } else {
        not_after(a.skip(1), b.skip(1))
    }
}

/// The order of texts.
pub open spec fn text_order() -> spec_fn(Seq<char>, Seq<char>) -> bool {
    |a: Seq<char>, b: Seq<char>| not_after(a, b)
}

proof fn lemma_reflexive(a: Seq<char>)
    ensures
        not_after(a, a),
    decreases a.len(),
{
    if a.len() > 0 {
        lemma_reflexive(a.skip(1));
    }
}

proof fn lemma_antisymmetric(a: Seq<char>, b: Seq<char>)
    requires
        not_after(a, b),
        not_after(b, a),
    ensures
        a == b,
    decreases a.len(),
{
    if a.len() > 0 && b.len() > 0 {
        lemma_antisymmetric(a.skip(1), b.skip(1));
        assert(a =~= seq![a[0]] + a.skip(1));
        assert(b =~= seq![b[0]] + b.skip(1));
    } else {
        assert(a =~= b);
    }
}

proof fn lemma_transitive(a: Seq<char>, b: Seq<char>, c: Seq<char>)
    requires
        not_after(a, b),
        not_after(b, c),
    ensures
        not_after(a, c),
    decreases a.len(),
{
    if a.len() > 0 && a[0] == b[0] && b[0] == c[0] {
        lemma_transitive(a.skip(1), b.skip(1), c.skip(1));
    }
}

proof fn lemma_connected(a: Seq<char>, b: Seq<char>)
    ensures
        not_after(a, b) || not_after(b, a),
    decreases a.len(),
{
    if a.len() > 0 && b.len() > 0 && a[0] == b[0] {
        lemma_connected(a.skip(1), b.skip(1));
    }
}

/// Any two texts can be put in order, and in one way only.
pub proof fn lemma_text_order()
    ensures
        total_ordering(text_order()),
{
    let order = text_order();
    assert(reflexive(order)) by {
        assert forall|a: Seq<char>| #[trigger] order(a, a) by {
            lemma_reflexive(a);
        }
    }
    assert(antisymmetric(order)) by {
        assert forall|a: Seq<char>, b: Seq<char>| #[trigger] order(a, b) && #[trigger] order(
            b,
            a,
        ) implies a == b by {
            lemma_antisymmetric(a, b);
        }
    }
    assert(transitive(order)) by {
        assert forall|a: Seq<char>, b: Seq<char>, c: Seq<char>| #[trigger] order(a, b)
            && #[trigger] order(b, c) implies order(a, c) by {
            lemma_transitive(a, b, c);
        }
    }
    assert(strongly_connected(order)) by {
        assert forall|a: Seq<char>, b: Seq<char>| #[trigger] order(a, b) || #[trigger] order(b, a) by {
            lemma_connected(a, b);
        }
    }
}

/// The content of the texts.
pub open spec fn text_views(texts: Seq<String>) -> Seq<Seq<char>> {
    texts.map_values(|text: String| text@)
}

/// Whether `a` does not come after `b`.
fn is_not_after(a: &str, b: &str) -> (r: bool)
    ensures
        r == not_after(a@, b@),
{
    let a_len: usize = a.unicode_len();
    let b_len: usize = b.unicode_len();
    let mut i: usize = 0;
    assert(a@.skip(0) =~= a@);
    assert(b@.skip(0) =~= b@);
    while i < a_len && i < b_len
        invariant
            i <= a_len,
            i <= b_len,
            a_len == a@.len(),
            b_len == b@.len(),
            not_after(a@, b@) == not_after(a@.skip(i as int), b@.skip(i as int)),
        decreases a_len - i,
    {
        let x = a.get_char(i);
        let y = b.get_char(i);
        proof {
            assert(a@.skip(i as int).skip(1) =~= a@.skip(i + 1));
            assert(b@.skip(i as int).skip(1) =~= b@.skip(i + 1));
        }
        if x != y {
            return (x as u32) < (y as u32);
        }
        i += 1;
    }
    i == a_len
}

/// The texts in order.
pub fn sort_texts(texts: Vec<String>) -> (r: Vec<String>)
    ensures
        text_views(r@) == text_views(texts@).sort_by(text_order()),
{
    let ghost order = text_order();
    let mut r: Vec<String> = Vec::new();
    let mut i: usize = 0;
    proof {
        lemma_text_order();
        assert(text_views(r@) =~= text_views(texts@).take(0));
    }
    while i < texts.len()
        invariant
            i <= texts@.len(),
            order == text_order(),
            total_ordering(order),
            r@.len() == i,
            sorted_by(text_views(r@), order),
            text_views(r@).to_multiset() == text_views(texts@).take(i as int).to_multiset(),
        decreases texts@.len() - i,
    {
        let ghost before = text_views(r@);
        let ghost text = texts@[i as int]@;
        let mut at: usize = 0;
        while at < r.len() && is_not_after(r[at].as_str(), texts[i].as_str())
            invariant
                at <= r@.len(),
                i < texts@.len(),
                text == texts@[i as int]@,
                forall|j: int| 0 <= j < at ==> not_after(#[trigger] text_views(r@)[j], text),
            ensures
                at <= r@.len(),
                forall|j: int| 0 <= j < at ==> not_after(#[trigger] text_views(r@)[j], text),
                at < r@.len() ==> !not_after(text_views(r@)[at as int], text),
            decreases r@.len() - at,
        {
            at += 1;
        }
        proof {
            assert forall|j: int| at <= j < before.len() implies not_after(
                text,
                #[trigger] before[j],
            ) by {
                lemma_connected(text, before[at as int]);
                if at < j {
                    assert(order(before[at as int], before[j]));
                    lemma_transitive(text, before[at as int], before[j]);
                }
            }
        }
        r.insert(at, texts[i].clone());
        proof {
            let after = text_views(r@);
            assert(after =~= before.insert(at as int, text));
            assert forall|a: int, b: int| 0 <= a < b < after.len() implies #[trigger] order(
                after[a],
                after[b],
            ) by {
                if b < at {
                    assert(order(before[a], before[b]));
                } else if a > at {
                    assert(order(before[a - 1], before[b - 1]));
                } else if a < at && b > at {
                    assert(order(before[a], before[b - 1]));
                } else if a == at {
                    assert(after[b] == before[b - 1]);
                } else {
                    assert(after[a] == before[a]);
                }
            }
            vstd::seq_lib::to_multiset_insert(before, at as int, text);
            let listed = text_views(texts@).take(i as int);
            assert(text_views(texts@).take(i + 1) =~= listed.push(text));
            vstd::seq_lib::to_multiset_build(listed, text);
        }
        i += 1;
    }
    proof {
        let all = text_views(texts@);
        assert(all.take(i as int) =~= all);
        all.lemma_sort_by_ensures(order);
        vstd::seq_lib::lemma_sorted_unique(text_views(r@), all.sort_by(order), order);
    }
    r
}

/// The texts one after the other, with commas between them.
pub open spec fn comma_separated(texts: Seq<Seq<char>>) -> Seq<char>
    decreases texts.len(),
{
    if texts.len() == 0 {
        Seq::empty()
    } else if texts.len() == 1 {
        texts[0]
    } else {
        comma_separated(texts.drop_last()).push(',') + texts.last()
    }
}

/// The texts one after the other, with commas between them.
pub fn join_texts(texts: &Vec<String>) -> (r: String)
    ensures
        r@ == comma_separated(text_views(texts@)),
{
    proof {
        reveal_strlit(",");
        assert(","@ =~= seq![',']);
    }
    let ghost all = text_views(texts@);
    let mut r: String = String::new();
    let mut i: usize = 0;
    assert(r@ =~= comma_separated(all.take(0)));
    while i < texts.len()
        invariant
            i <= texts@.len(),
            all == text_views(texts@),
            ","@ == seq![','],
            r@ == comma_separated(all.take(i as int)),
        decreases texts@.len() - i,
    {
        if i > 0 {
            r.append(",");
        }
        r.append(texts[i].as_str());
        proof {
            assert(all.take(i + 1).drop_last() =~= all.take(i as int));
            assert(r@ =~= comma_separated(all.take(i + 1)));
        }
        i += 1;
    }
    assert(all.take(i as int) =~= all);
    r
}

} // verus!
