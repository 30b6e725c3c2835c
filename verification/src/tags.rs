//! The tag normalizer: comma-delimited tag lists are trimmed, freed of empty
//! elements and sorted ascending; formatting for the buffer (`{t:...}`) and
//! for storage (`,a,b,`) lives here as well.
use vstd::prelude::*;
use vstd::relations::{sorted_by, total_ordering};
use vstd::seq_lib::lemma_multiset_commutative;
use vstd::seq_lib::lemma_sorted_unique;

use crate::chars::{
    is_ws_char, trim_spec, is_trimmed, lemma_trim_trimmed, lemma_trim_of_trimmed, run_end,
    lemma_run_end_bounds, lemma_run_end_unique, rev_run_end, lemma_rev_run_end_unique,
    lemma_rev_run_end_above, str_to_chars, ws_char, ws_pred, not_comma_pred,
};

verus! {

/// Lexicographic order on tag texts, by code point.
pub open spec fn lex_leq(a: Seq<char>, b: Seq<char>) -> bool
    decreases a.len(),
{
    if a.len() == 0 {
        true
    } else if b.len() == 0 {
        false
    } else if (a[0] as u32) < (b[0] as u32) {
        true
    } else if (a[0] as u32) > (b[0] as u32) {
        false
    } else {
        lex_leq(a.drop_first(), b.drop_first())
    }
}

/// The order that tag lists are sorted by.
pub open spec fn tag_order() -> spec_fn(Seq<char>, Seq<char>) -> bool {
    |a: Seq<char>, b: Seq<char>| lex_leq(a, b)
}

proof fn lemma_lex_leq_refl(a: Seq<char>)
    ensures
        lex_leq(a, a),
    decreases a.len(),
{
    if a.len() > 0 {
        lemma_lex_leq_refl(a.drop_first());
    }
}

proof fn lemma_lex_leq_antisym(a: Seq<char>, b: Seq<char>)
    requires
        lex_leq(a, b),
        lex_leq(b, a),
    ensures
        a == b,
    decreases a.len(),
{
    if a.len() == 0 {
        assert(b.len() == 0);
        assert(a =~= b);
    } else {
        vstd::utf8::char_u32_cast(a[0], a[0] as u32);
        vstd::utf8::char_u32_cast(b[0], b[0] as u32);
        assert(a[0] == b[0]);
        lemma_lex_leq_antisym(a.drop_first(), b.drop_first());
        assert(a =~= seq![a[0]] + a.drop_first());
        assert(b =~= seq![b[0]] + b.drop_first());
    }
}

proof fn lemma_lex_leq_trans(a: Seq<char>, b: Seq<char>, c: Seq<char>)
    requires
        lex_leq(a, b),
        lex_leq(b, c),
    ensures
        lex_leq(a, c),
    decreases a.len(),
{
    if a.len() > 0 && b.len() > 0 && c.len() > 0 {
        if a[0] as u32 == b[0] as u32 && b[0] as u32 == c[0] as u32 {
            lemma_lex_leq_trans(a.drop_first(), b.drop_first(), c.drop_first());
        }
    }
}

proof fn lemma_lex_leq_connected(a: Seq<char>, b: Seq<char>)
    ensures
        lex_leq(a, b) || lex_leq(b, a),
    decreases a.len(),
{
    if a.len() > 0 && b.len() > 0 && a[0] as u32 == b[0] as u32 {
        lemma_lex_leq_connected(a.drop_first(), b.drop_first());
    }
}

/// The tag order is total: tag lists have exactly one sorted form.
pub proof fn lemma_tag_order_total()
    ensures
        total_ordering(tag_order()),
{
    let leq = tag_order();
    assert forall|a: Seq<char>| #[trigger] leq(a, a) by {
        lemma_lex_leq_refl(a);
    }
    assert forall|a: Seq<char>, b: Seq<char>| #[trigger] leq(a, b) && #[trigger] leq(b, a)
        implies a == b by {
        lemma_lex_leq_antisym(a, b);
    }
    assert forall|a: Seq<char>, b: Seq<char>, c: Seq<char>|
        #[trigger] leq(a, b) && #[trigger] leq(b, c) implies leq(a, c) by {
        lemma_lex_leq_trans(a, b, c);
    }
    assert forall|a: Seq<char>, b: Seq<char>| !(#[trigger] leq(a, b)) implies leq(b, a) by {
        lemma_lex_leq_connected(a, b);
    }
}

/// Compares two tag texts in the tag order.
pub fn lex_le_str(a: &str, b: &str) -> (r: bool)
    ensures
        r == lex_leq(a@, b@),
{
    let an = a.unicode_len();
    let bn = b.unicode_len();
    let n = if an < bn {
        an
    } else {
        bn
    };
    let mut i: usize = 0;
    proof {
        assert(a@.skip(0) =~= a@);
        assert(b@.skip(0) =~= b@);
    }
    while i < n
        invariant
            n <= a@.len() && n <= b@.len(),
            n == a@.len() || n == b@.len(),
            an == a@.len() && bn == b@.len(),
            i <= n,
            forall|k: int| 0 <= k < i ==> a@[k] == b@[k],
            lex_leq(a@, b@) == lex_leq(a@.skip(i as int), b@.skip(i as int)),
        decreases n - i,
    {
        let ca = a.get_char(i);
        let cb = b.get_char(i);
        proof {
            assert(a@.skip(i as int)[0] == a@[i as int]);
            assert(b@.skip(i as int)[0] == b@[i as int]);
            assert(a@.skip(i as int).drop_first() =~= a@.skip(i as int + 1));
            assert(b@.skip(i as int).drop_first() =~= b@.skip(i as int + 1));
        }
        if (ca as u32) < (cb as u32) {
            return true;
        }
        if (ca as u32) > (cb as u32) {
            return false;
        }
        i = i + 1;
    }
    proof {
        if an <= bn {
            assert(a@.skip(i as int).len() == 0);
        } else {
            assert(b@.skip(i as int).len() == 0);
            assert(a@.skip(i as int).len() > 0);
        }
    }
    an <= bn
}

/// Removes leading and trailing whitespace.
pub fn trim_string(s: &str) -> (r: String)
    ensures
        r@ == trim_spec(s@),
{
    let v = str_to_chars(s);
    let n = v.len();
    let ghost p = ws_pred();
    let mut a: usize = 0;
    while a < n && ws_char(v[a])
        invariant
            a <= n,
            n == s@.len(),
            v@ == s@,
            forall|k: int| 0 <= k < a ==> is_ws_char(s@[k]),
        decreases n - a,
    {
        a = a + 1;
    }
    proof {
        lemma_run_end_unique(s@, 0, p, a as int);
    }
    if a == n {
        let r = String::new();
        proof {
            assert(r@ =~= trim_spec(s@));
        }
        return r;
    }
    let mut b: usize = n;
    while b > a + 1 && ws_char(v[b - 1])
        invariant
            a < b <= n,
            n == s@.len(),
            v@ == s@,
            forall|k: int| b <= k < n ==> is_ws_char(s@[k]),
        decreases b,
    {
        b = b - 1;
    }
    proof {
        assert(!is_ws_char(s@[a as int]));
        assert(!is_ws_char(s@[b - 1]));
        lemma_rev_run_end_unique(s@, n as int, p, b as int);
    }
    let piece = s.substring_char(a, b);
    piece.to_owned()
}

/// The pieces of `s[i..]` between commas, commas excluded; one piece more
/// than there are commas, empty pieces kept.
pub open spec fn split_from(s: Seq<char>, i: int) -> Seq<Seq<char>>
    decreases s.len() - i,
    when 0 <= i <= s.len()
    via split_from_decreases
{
    let j = run_end(s, i, not_comma_pred());
    if j >= s.len() {
        seq![s.subrange(i, s.len() as int)]
    } else {
        seq![s.subrange(i, j)] + split_from(s, j + 1)
    }
}

#[via_fn]
proof fn split_from_decreases(s: Seq<char>, i: int) {
    lemma_run_end_bounds(s, i, not_comma_pred());
}

/// The comma-separated pieces of a whole string.
pub open spec fn split_commas_spec(s: Seq<char>) -> Seq<Seq<char>> {
    split_from(s, 0)
}

/// One unfolding step of `split_from`, with the run bounds established.
pub proof fn lemma_split_from_step(s: Seq<char>, i: int)
    requires
        0 <= i <= s.len(),
    ensures
        ({
            let j = run_end(s, i, not_comma_pred());
            &&& i <= j <= s.len()
            &&& (j < s.len() ==> s[j] == ',' && split_from(s, i) == seq![s.subrange(i, j)]
                + split_from(s, j + 1))
            &&& (j == s.len() ==> split_from(s, i) == seq![s.subrange(i, s.len() as int)])
        }),
{
    lemma_run_end_bounds(s, i, not_comma_pred());
}

/// Splits on every comma; empty pieces are kept.
pub fn split_commas(s: &str) -> (r: Vec<String>)
    ensures
        r.deep_view() == split_commas_spec(s@),
{
    let v = str_to_chars(s);
    let n = v.len();
    let mut out: Vec<String> = Vec::new();
    let mut start: usize = 0;
    let mut i: usize = 0;
    while i < n
        invariant
            start <= i <= n,
            n == s@.len(),
            v@ == s@,
            forall|k: int| start <= k < i ==> s@[k] != ',',
            out.deep_view() + split_from(s@, start as int) == split_commas_spec(s@),
        decreases n - i,
    {
        if v[i] == ',' {
            proof {
                assert forall|k: int| start <= k < i implies (not_comma_pred())(s@[k]) by {
                    assert(s@[k] != ',');
                }
                assert(!(not_comma_pred())(s@[i as int]));
                lemma_run_end_unique(s@, start as int, not_comma_pred(), i as int);
                lemma_split_from_step(s@, start as int);
            }
            let piece = s.substring_char(start, i);
            out.push(piece.to_owned());
            proof {
                assert(out.deep_view() + split_from(s@, i + 1) =~= split_commas_spec(s@));
            }
            start = i + 1;
        }
        i = i + 1;
    }
    proof {
        assert forall|k: int| start <= k < n implies (not_comma_pred())(s@[k]) by {
            assert(s@[k] != ',');
        }
        lemma_run_end_unique(s@, start as int, not_comma_pred(), n as int);
        lemma_split_from_step(s@, start as int);
    }
    let piece = s.substring_char(start, n);
    out.push(piece.to_owned());
    proof {
        assert(out.deep_view() =~= split_commas_spec(s@));
    }
    out
}

/// The pieces joined back with commas between them.
pub open spec fn join_commas_spec(parts: Seq<Seq<char>>) -> Seq<char>
    decreases parts.len(),
{
    if parts.len() == 0 {
        Seq::<char>::empty()
    } else if parts.len() == 1 {
        parts[0]
    } else {
        parts[0] + seq![','] + join_commas_spec(parts.drop_first())
    }
}

pub proof fn lemma_join_push(parts: Seq<Seq<char>>, p: Seq<char>)
    ensures
        parts.len() == 0 ==> join_commas_spec(parts.push(p)) == p,
        parts.len() > 0 ==> join_commas_spec(parts.push(p)) == join_commas_spec(parts)
            + seq![','] + p,
    decreases parts.len(),
{
    if parts.len() == 0 {
        assert(parts.push(p)[0] =~= p);
    } else if parts.len() == 1 {
        assert(parts.push(p).drop_first() =~= seq![p]);
        assert(join_commas_spec(seq![p]) =~= p);
        assert(join_commas_spec(parts.push(p)) =~= parts[0] + seq![','] + p);
    } else {
        lemma_join_push(parts.drop_first(), p);
        assert(parts.push(p).drop_first() =~= parts.drop_first().push(p));
        assert(join_commas_spec(parts.push(p)) =~= join_commas_spec(parts) + seq![','] + p);
    }
}

/// Joins the pieces with commas between them.
pub fn join_commas(parts: &Vec<String>) -> (r: String)
    ensures
        r@ == join_commas_spec(parts.deep_view()),
{
    let mut out = String::new();
    let mut i: usize = 0;
    while i < parts.len()
        invariant
            i <= parts@.len(),
            out@ == join_commas_spec(parts.deep_view().take(i as int)),
        decreases parts@.len() - i,
    {
        if i > 0 {
            out.append(",");
            proof {
                reveal_strlit(",");
            }
        }
        out.append(parts[i].as_str());
        proof {
            lemma_join_push(parts.deep_view().take(i as int), parts.deep_view()[i as int]);
            assert(parts.deep_view().take(i + 1) =~= parts.deep_view().take(i as int).push(
                parts.deep_view()[i as int],
            ));
            assert(out@ =~= join_commas_spec(parts.deep_view().take(i + 1)));
        }
        i = i + 1;
    }
    proof {
        assert(parts.deep_view().take(parts.deep_view().len() as int) =~= parts.deep_view());
    }
    out
}

/// Sorts tag texts ascending in the tag order; keeps duplicates.
pub fn sort_strings(v: Vec<String>) -> (r: Vec<String>)
    ensures
        sorted_by(r.deep_view(), tag_order()),
        r.deep_view().to_multiset() == v.deep_view().to_multiset(),
{
    broadcast use vstd::seq_lib::group_to_multiset_ensures;

    let mut out: Vec<String> = Vec::new();
    let mut idx: usize = 0;
    proof {
        lemma_tag_order_total();
        assert(v.deep_view().take(0) =~= Seq::<Seq<char>>::empty());
        assert(out.deep_view() =~= Seq::<Seq<char>>::empty());
    }
    while idx < v.len()
        invariant
            idx <= v@.len(),
            sorted_by(out.deep_view(), tag_order()),
            out.deep_view().to_multiset() == v.deep_view().take(idx as int).to_multiset(),
        decreases v@.len() - idx,
    {
        broadcast use vstd::seq_lib::group_to_multiset_ensures;

        let x = v[idx].clone();
        let mut j: usize = 0;
        while j < out.len() && lex_le_str(out[j].as_str(), x.as_str())
            invariant
                j <= out@.len(),
                x@ == v.deep_view()[idx as int],
                forall|k: int| 0 <= k < j ==> lex_leq(out.deep_view()[k], x@),
            decreases out@.len() - j,
        {
            j = j + 1;
        }
        let ghost old_deep = out.deep_view();
        out.insert(j, x);
        proof {
            lemma_tag_order_total();
            let leq = tag_order();
            let nd = out.deep_view();
            assert(nd =~= old_deep.insert(j as int, x@));
            assert(nd =~= old_deep.take(j as int).push(x@) + old_deep.skip(j as int));
            if j < old_deep.len() {
                lemma_lex_leq_connected(old_deep[j as int], x@);
            }
            assert forall|p0: int, q0: int| 0 <= p0 < q0 < nd.len() implies leq(
                nd[p0],
                nd[q0],
            ) by {
                let get = |k: int|
                    if k < j {
                        old_deep[k]
                    } else if k == j {
                        x@
                    } else {
                        old_deep[k - 1]
                    };
                assert(nd[p0] == get(p0));
                assert(nd[q0] == get(q0));
                if p0 < j && q0 == j {
                } else if p0 == j && q0 > j {
                    assert(leq(x@, old_deep[j as int]));
                    assert(leq(old_deep[j as int], old_deep[q0 - 1]) || j == q0 - 1);
                    lemma_lex_leq_trans(x@, old_deep[j as int], old_deep[q0 - 1]);
                } else if p0 < j && q0 > j {
                    assert(leq(old_deep[p0], old_deep[q0 - 1]) || p0 == q0 - 1);
                }
            }
            lemma_multiset_commutative(old_deep.take(j as int).push(x@), old_deep.skip(j as int));
            lemma_multiset_commutative(old_deep.take(j as int), old_deep.skip(j as int));
            assert(old_deep.take(j as int) + old_deep.skip(j as int) =~= old_deep);
            assert(nd.to_multiset() =~= old_deep.to_multiset().insert(x@));
            assert(v.deep_view().take(idx + 1) =~= v.deep_view().take(idx as int).push(x@));
        }
        idx = idx + 1;
    }
    proof {
        assert(v.deep_view().take(v.deep_view().len() as int) =~= v.deep_view());
    }
    out
}

/// Trimming, as a map for tag lists.
pub open spec fn trim_map() -> spec_fn(Seq<char>) -> Seq<char> {
    |p: Seq<char>| trim_spec(p)
}

/// A non-empty tag text.
pub open spec fn nonempty_pred() -> spec_fn(Seq<char>) -> bool {
    |p: Seq<char>| p.len() > 0
}

/// Tag texts trimmed, with empty elements dropped.
pub open spec fn cleaned(parts: Seq<Seq<char>>) -> Seq<Seq<char>> {
    parts.map_values(trim_map()).filter(nonempty_pred())
}

/// The canonical form of a tag list: trimmed, freed of empty elements and
/// sorted ascending; duplicates are kept.
pub open spec fn normalize_spec(parts: Seq<Seq<char>>) -> Seq<Seq<char>> {
    cleaned(parts).sort_by(tag_order())
}

pub proof fn lemma_filter_elems<A>(s: Seq<A>, pred: spec_fn(A) -> bool)
    ensures
        forall|i: int|
            0 <= i < s.filter(pred).len() ==> s.contains(#[trigger] s.filter(pred)[i]),
    decreases s.len(),
{
    reveal(Seq::filter);
    if s.len() > 0 {
        lemma_filter_elems(s.drop_last(), pred);
        let sub = s.drop_last().filter(pred);
        assert forall|i: int| 0 <= i < s.filter(pred).len() implies s.contains(
            #[trigger] s.filter(pred)[i],
        ) by {
            if i < sub.len() {
                assert(sub[i] == s.filter(pred)[i]);
                assert(s.drop_last().contains(sub[i]));
                let j = choose|j: int| 0 <= j < s.drop_last().len() && s.drop_last()[j] == sub[i];
                assert(s[j] == sub[i]);
            } else {
                assert(s.filter(pred)[i] == s.last());
            }
        }
    }
}

pub proof fn lemma_filter_all<A>(s: Seq<A>, pred: spec_fn(A) -> bool)
    requires
        forall|i: int| 0 <= i < s.len() ==> pred(s[i]),
    ensures
        s.filter(pred) == s,
    decreases s.len(),
{
    reveal(Seq::filter);
    if s.len() > 0 {
        lemma_filter_all(s.drop_last(), pred);
        assert(s.drop_last().filter(pred).push(s.last()) =~= s);
    }
}

/// Every element of the normalized list is trimmed and non-empty, and the
/// list is sorted.
pub proof fn lemma_normalize_props(parts: Seq<Seq<char>>)
    ensures
        sorted_by(normalize_spec(parts), tag_order()),
        forall|i: int|
            0 <= i < normalize_spec(parts).len() ==> is_trimmed(#[trigger] normalize_spec(
                parts,
            )[i]) && normalize_spec(parts)[i].len() > 0,
{
    broadcast use vstd::seq_lib::group_filter_ensures;
    broadcast use vstd::seq_lib::group_to_multiset_ensures;

    lemma_tag_order_total();
    let cl = cleaned(parts);
    let nm = normalize_spec(parts);
    cl.lemma_sort_by_ensures(tag_order());
    let mapped = parts.map_values(trim_map());
    assert forall|i: int| 0 <= i < nm.len() implies is_trimmed(#[trigger] nm[i])
        && nm[i].len() > 0 by {
        assert(nm.contains(nm[i]));
        assert(nm.to_multiset().count(nm[i]) > 0);
        assert(cl.contains(nm[i]));
        let j = choose|j: int| 0 <= j < cl.len() && cl[j] == nm[i];
        assert((nonempty_pred())(cl[j]));
        lemma_filter_elems(mapped, nonempty_pred());
        assert(mapped.contains(cl[j]));
        let k = choose|k: int| 0 <= k < mapped.len() && mapped[k] == cl[j];
        assert(mapped[k] == trim_spec(parts[k]));
        lemma_trim_trimmed(parts[k]);
    }
}

/// Normalization is idempotent: a list already in canonical form stays as
/// it is, so normalizing twice is the same as normalizing once.
pub proof fn lemma_normalize_idempotent(parts: Seq<Seq<char>>)
    ensures
        normalize_spec(normalize_spec(parts)) == normalize_spec(parts),
        sorted_by(normalize_spec(parts), tag_order()),
{
    lemma_tag_order_total();
    lemma_normalize_props(parts);
    let nm = normalize_spec(parts);
    assert(nm.map_values(trim_map()) =~= nm) by {
        assert forall|i: int| 0 <= i < nm.len() implies nm.map_values(trim_map())[i]
            == nm[i] by {
            lemma_trim_of_trimmed(nm[i]);
        }
    }
    lemma_filter_all(nm, nonempty_pred());
    assert(cleaned(nm) == nm);
    nm.lemma_sort_by_ensures(tag_order());
    lemma_sorted_unique(nm.sort_by(tag_order()), nm, tag_order());
    assert(normalize_spec(nm) == nm);
}

/// Brings a tag list into canonical form: trimmed, no empty elements,
/// sorted ascending.
pub fn normalize_strings(parts: Vec<String>) -> (r: Vec<String>)
    ensures
        r.deep_view() == normalize_spec(parts.deep_view()),
{
    broadcast use vstd::seq_lib::group_filter_ensures;

    let mut cl: Vec<String> = Vec::new();
    let mut i: usize = 0;
    proof {
        assert(parts.deep_view().take(0).map_values(trim_map()) =~= Seq::<Seq<char>>::empty());
        reveal(Seq::filter);
        assert(cl.deep_view() =~= parts.deep_view().take(0).map_values(trim_map()).filter(
            nonempty_pred(),
        ));
    }
    while i < parts.len()
        invariant
            i <= parts@.len(),
            cl.deep_view() == parts.deep_view().take(i as int).map_values(trim_map()).filter(
                nonempty_pred(),
            ),
        decreases parts@.len() - i,
    {
        broadcast use vstd::prelude::Seq::lemma_filter_push;

        let ghost pre = parts.deep_view().take(i as int).map_values(trim_map());
        let t = trim_string(parts[i].as_str());
        proof {
            assert(parts.deep_view().take(i + 1) =~= parts.deep_view().take(i as int).push(
                parts.deep_view()[i as int],
            ));
            assert(parts.deep_view().take(i + 1).map_values(trim_map()) =~= pre.push(t@));
        }
        if !t.as_str().is_empty() {
            cl.push(t);
            proof {
                assert((nonempty_pred())(t@));
                assert(cl.deep_view() =~= pre.filter(nonempty_pred()).push(t@));
            }
        } else {
            proof {
                assert(!(nonempty_pred())(t@));
            }
        }
        i = i + 1;
    }
    proof {
        assert(parts.deep_view().take(parts.deep_view().len() as int) =~= parts.deep_view());
    }
    let r = sort_strings(cl);
    proof {
        lemma_tag_order_total();
        let cle = cleaned(parts.deep_view());
        cle.lemma_sort_by_ensures(tag_order());
        lemma_sorted_unique(r.deep_view(), cle.sort_by(tag_order()), tag_order());
    }
    r
}

/// A list with at least one non-empty element joins to non-empty text.
pub proof fn lemma_join_nonempty(parts: Seq<Seq<char>>)
    requires
        parts.len() > 0,
        forall|i: int| 0 <= i < parts.len() ==> #[trigger] parts[i].len() > 0,
    ensures
        join_commas_spec(parts).len() > 0,
{
    if parts.len() == 1 {
        assert(parts[0].len() > 0);
    }
}

/// The buffer form of a tag list: `{t:a,b}`, or nothing at all when the
/// list is empty.
pub open spec fn tags_block_spec(tags: Seq<Seq<char>>) -> Seq<char> {
    if tags.len() == 0 {
        Seq::<char>::empty()
    } else {
        seq!['{', 't', ':'] + join_commas_spec(tags) + seq!['}']
    }
}

/// The storage form of a tag list: `,a,b,` (a bare `,,` for the empty list).
pub open spec fn storage_tags_spec(tags: Seq<Seq<char>>) -> Seq<char> {
    seq![','] + join_commas_spec(tags) + seq![',']
}

/// An empty tag set renders no block at all, never `{t:}`.
pub proof fn lemma_empty_tags_no_block(parts: Seq<Seq<char>>)
    ensures
        normalize_spec(parts).len() == 0 ==> tags_block_spec(normalize_spec(parts))
            == Seq::<char>::empty(),
        normalize_spec(parts).len() > 0 ==> tags_block_spec(normalize_spec(parts)).len() > 0,
{
}

/// Renders a tag list for the buffer.
pub fn tags_to_block(tags: &Vec<String>) -> (r: String)
    ensures
        r@ == tags_block_spec(tags.deep_view()),
{
    if tags.len() == 0 {
        let r = String::new();
        proof {
            assert(r@ =~= tags_block_spec(tags.deep_view()));
        }
        return r;
    }
    let mut out = String::new();
    out.append("{t:");
    let mid = join_commas(tags);
    out.append(mid.as_str());
    out.append("}");
    proof {
        reveal_strlit("{t:");
        reveal_strlit("}");
        assert(out@ =~= tags_block_spec(tags.deep_view()));
    }
    out
}

/// Renders a tag list for storage.
pub fn tags_to_storage(tags: &Vec<String>) -> (r: String)
    ensures
        r@ == storage_tags_spec(tags.deep_view()),
{
    let mut out = String::new();
    out.append(",");
    let mid = join_commas(tags);
    out.append(mid.as_str());
    out.append(",");
    proof {
        reveal_strlit(",");
        assert(out@ =~= storage_tags_spec(tags.deep_view()));
    }
    out
}

} // verus!
