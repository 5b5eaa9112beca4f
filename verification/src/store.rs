//! The content store: the arbiter of all object state.
//!
//! It owns the catalogue, a blob area keyed by source id, and the codec,
//! and implements put/get/delete/list with content-addressed
//! deduplication. The ghost `contents` map records, for every live
//! source, the original bytes its blob stores; the store invariant ties
//! the catalogue rows, the blobs and that map together: every link
//! resolves, every count equals the number of links that share the
//! source, and every blob decodes back to its source's content.

use crate::catalog::{
    distinct_link_ids, first_hash_at, has_link_id, has_source_id, has_source_hash,
    lemma_link_id_unique, lemma_source_id_unique, like_match, link_at, matches_name, source_at,
    star_to_percent, str_chars, str_eq, translate_wildcards, Dao, Link, Source, StoreError,
};
use crate::codec::{clone_bytes, decode_result, decode_spec, BlockManager, CodecError};
use vstd::prelude::*;

verus! {

/// What blake3's hash (hex-encoded) returns; the digest is a function
/// of the input bytes alone.
pub uninterp spec fn blake3_hex_of(b: Seq<u8>) -> Seq<char>;

/// Relies on `blake3::hash` and `Hash::to_hex`: a 64-digit hex digest
/// of the input bytes alone.
#[verifier::external_body]
fn get_hash256_from_binary(input: &Vec<u8>) -> (r: String)
    ensures
        r@ == blake3_hex_of(input@),
        r@.len() == 64,
{
    blake3::hash(input.as_slice()).to_hex().to_string()
}

/// A decimal digit.
pub open spec fn is_dec_digit(ch: char) -> bool {
    '0' <= ch && ch <= '9'
}

/// A character of the base62 alphabet `0-9`, `a-z`, `A-Z`.
pub open spec fn is_base62(ch: char) -> bool {
    ('0' <= ch && ch <= '9') || ('a' <= ch && ch <= 'z') || ('A' <= ch && ch <= 'Z')
}

/// Relies on chrono's `Utc::now` with the `%Y%m%d%H%M%S` format: each
/// field zero-padded to fixed width, 14 decimal digits in all for any
/// moment whose year has four digits — as every moment a real clock
/// reports does. The clock's value itself is not promised.
#[verifier::external_body]
fn utc_compact_timestamp() -> (r: String)
    ensures
        r@.len() == 14,
        forall|j: int| 0 <= j < r@.len() ==> is_dec_digit(#[trigger] r@[j]),
{
    chrono::Utc::now().format("%Y%m%d%H%M%S").to_string()
}

/// Relies on `nanoid::format` with its default random source: exactly 8
/// characters, each drawn from the base62 alphabet handed to it.
#[verifier::external_body]
fn nanoid8() -> (r: String)
    ensures
        r@.len() == 8,
        forall|j: int| 0 <= j < r@.len() ==> is_base62(#[trigger] r@[j]),
{
    nanoid::format(
        nanoid::rngs::default,
        &[
            '0', '1', '2', '3', '4', '5', '6', '7', '8', '9', 'a', 'b', 'c', 'd', 'e', 'f', 'g',
            'h', 'i', 'j', 'k', 'l', 'm', 'n', 'o', 'p', 'q', 'r', 's', 't', 'u', 'v', 'w', 'x',
            'y', 'z', 'A', 'B', 'C', 'D', 'E', 'F', 'G', 'H', 'I', 'J', 'K', 'L', 'M', 'N', 'O',
            'P', 'Q', 'R', 'S', 'T', 'U', 'V', 'W', 'X', 'Y', 'Z',
        ],
        8,
    )
}

/// The position of the last `.` in a name, or -1.
pub open spec fn last_dot(name: Seq<char>) -> int
    decreases name.len(),
{
    if name.len() == 0 {
        -1
    } else if name.last() == '.' {
        name.len() - 1
    } else {
        last_dot(name.drop_last())
    }
}

/// The extension a name carries: what follows its last `.`, empty when
/// there is no dot or the only dot leads the name.
pub open spec fn ext_of(name: Seq<char>) -> Seq<char> {
    let d = last_dot(name);
    if d <= 0 {
        Seq::empty()
    } else {
        name.skip(d + 1)
    }
}

/// Derive a name's extension.
pub fn ext_of_exec(name: &str) -> (r: String)
    ensures
        r@ == ext_of(name@),
{
    let n = name.unicode_len();
    let mut i: usize = n;
    proof {
        assert(name@.take(n as int) =~= name@);
    }
    while i > 0
        invariant
            i <= n,
            n == name@.len(),
            last_dot(name@) == last_dot(name@.take(i as int)),
        decreases i,
    {
        let c = name.get_char(i - 1);
        proof {
            assert(name@.take(i as int).last() == name@[i - 1]);
            assert(name@.take(i as int).drop_last() =~= name@.take(i - 1));
        }
        if c == '.' {
            proof {
                assert(last_dot(name@) == i - 1);
            }
            if i - 1 == 0 {
                return String::new();
            }
            let ext = name.substring_char(i, n);
            proof {
                assert(name@.subrange(i as int, n as int) =~= name@.skip(i as int));
            }
            return ext.to_owned();
        }
        i -= 1;
    }
    proof {
        assert(last_dot(name@.take(0)) == -1);
    }
    String::new()
}

/// The blob area's relative path for a source id: the id's first four
/// characters, its next two, and the id itself, as three `/`-separated
/// segments — the fan-out that keeps any one blob directory small.
pub fn blob_rel_path(id: &str) -> (r: String)
    requires
        id@.len() >= 6,
    ensures
        r@ == id@.take(4) + seq!['/'] + id@.subrange(4, 6) + seq!['/'] + id@,
{
    let a = id.substring_char(0, 4);
    let b = id.substring_char(4, 6);
    let mut r = a.to_owned();
    r.append("/");
    r.append(b);
    r.append("/");
    r.append(id);
    proof {
        reveal_strlit("/");
        assert(r@ =~= id@.take(4) + seq!['/'] + id@.subrange(4, 6) + seq!['/'] + id@);
    }
    r
}

/// Whether the text holds a `*` wildcard.
fn contains_star(s: &str) -> (r: bool)
    ensures
        r == s@.contains('*'),
{
    let n = s.unicode_len();
    let mut i: usize = 0;
    while i < n
        invariant
            i <= n,
            n == s@.len(),
            forall|k: int| 0 <= k < i ==> s@[k] != '*',
        decreases n - i,
    {
        if s.get_char(i) == '*' {
            proof {
                assert(s@.contains('*'));
            }
            return true;
        }
        i += 1;
    }
    proof {
        assert(!s@.contains('*'));
    }
    false
}

/// How many links reference a source.
pub open spec fn count_refs(links: Seq<Link>, sid: Seq<char>) -> nat
    decreases links.len(),
{
    if links.len() == 0 {
        0
    } else {
        count_refs(links.drop_last(), sid) + (if links.last().source_id@ == sid {
            1nat
        } else {
            0nat
        })
    }
}

/// A reference count never exceeds the number of links.
pub proof fn lemma_count_refs_le_len(links: Seq<Link>, sid: Seq<char>)
    ensures
        count_refs(links, sid) <= links.len(),
    decreases links.len(),
{
    if links.len() > 0 {
        lemma_count_refs_le_len(links.drop_last(), sid);
    }
}

/// Removing one link lowers a reference count by exactly its own
/// contribution.
pub proof fn lemma_count_refs_remove(links: Seq<Link>, sid: Seq<char>, i: int)
    requires
        0 <= i < links.len(),
    ensures
        count_refs(links, sid) == count_refs(links.remove(i), sid) + (
        if links[i].source_id@ == sid {
            1nat
        } else {
            0nat
        }),
    decreases links.len(),
{
    if i == links.len() - 1 {
        assert(links.remove(i) =~= links.drop_last());
    } else {
        assert(links.remove(i).drop_last() =~= links.drop_last().remove(i));
        assert(links.remove(i).last() == links.last());
        lemma_count_refs_remove(links.drop_last(), sid, i);
    }
}

/// Rewriting one link changes reference counts by the contributions of
/// the old and new entries alone.
pub proof fn lemma_count_refs_update(links: Seq<Link>, sid: Seq<char>, i: int, l: Link)
    requires
        0 <= i < links.len(),
    ensures
        count_refs(links.update(i, l), sid) + (if links[i].source_id@ == sid {
            1nat
        } else {
            0nat
        }) == count_refs(links, sid) + (if l.source_id@ == sid {
            1nat
        } else {
            0nat
        }),
    decreases links.len(),
{
    if i == links.len() - 1 {
        assert(links.update(i, l).drop_last() =~= links.drop_last());
        assert(links.update(i, l).last() == l);
    } else {
        assert(links.update(i, l).drop_last() =~= links.drop_last().update(i, l));
        assert(links.update(i, l).last() == links.last());
        lemma_count_refs_update(links.drop_last(), sid, i, l);
    }
}

/// Every element a filter keeps comes from the underlying table.
pub proof fn lemma_filter_origin(s: Seq<Link>, pred: spec_fn(Link) -> bool, i: int)
    requires
        0 <= i < s.filter(pred).len(),
    ensures
        exists|j: int| 0 <= j < s.len() && s[j] == s.filter(pred)[i],
    decreases s.len(),
{
    reveal(Seq::filter);
    if s.len() > 0 {
        let f = s.filter(pred);
        let sub = s.drop_last().filter(pred);
        if pred(s.last()) {
            if i < f.len() - 1 {
                lemma_filter_origin(s.drop_last(), pred, i);
                let j = choose|j: int|
                    0 <= j < s.drop_last().len() && s.drop_last()[j] == sub[i];
                assert(s[j] == f[i]);
            } else {
                assert(s[s.len() - 1] == f[i]);
            }
        } else {
            lemma_filter_origin(s.drop_last(), pred, i);
            let j = choose|j: int| 0 <= j < s.drop_last().len() && s.drop_last()[j] == sub[i];
            assert(s[j] == f[i]);
        }
    }
}

/// A link referencing a source forces a positive count.
pub proof fn lemma_count_refs_pos(links: Seq<Link>, sid: Seq<char>, i: int)
    requires
        0 <= i < links.len(),
        links[i].source_id@ == sid,
    ensures
        count_refs(links, sid) >= 1,
    decreases links.len(),
{
    if i == links.len() - 1 {
    } else {
        lemma_count_refs_pos(links.drop_last(), sid, i);
    }
}

/// Two links referencing a source force a count of at least two.
pub proof fn lemma_count_refs_two(links: Seq<Link>, sid: Seq<char>, i: int, j: int)
    requires
        0 <= i < links.len(),
        0 <= j < links.len(),
        i != j,
        links[i].source_id@ == sid,
        links[j].source_id@ == sid,
    ensures
        count_refs(links, sid) >= 2,
{
    lemma_count_refs_remove(links, sid, i);
    let t = links.remove(i);
    if j < i {
        lemma_count_refs_pos(t, sid, j);
    } else {
        assert(t[j - 1] == links[j]);
        lemma_count_refs_pos(t, sid, j - 1);
    }
}

/// A source nothing references has count zero.
pub proof fn lemma_count_refs_zero(links: Seq<Link>, sid: Seq<char>)
    requires
        forall|i: int| 0 <= i < links.len() ==> (#[trigger] links[i]).source_id@ != sid,
    ensures
        count_refs(links, sid) == 0,
    decreases links.len(),
{
    if links.len() > 0 {
        assert(forall|i: int|
            0 <= i < links.drop_last().len() ==> (#[trigger] links.drop_last()[i]).source_id@
                != sid);
        lemma_count_refs_zero(links.drop_last(), sid);
    }
}

/// A filter that keeps every element returns the table unchanged.
pub proof fn lemma_filter_keep_all(s: Seq<Link>, p: spec_fn(Link) -> bool)
    requires
        forall|i: int| 0 <= i < s.len() ==> p(#[trigger] s[i]),
    ensures
        s.filter(p) == s,
    decreases s.len(),
{
    reveal(Seq::filter);
    if s.len() > 0 {
        assert(forall|i: int| 0 <= i < s.drop_last().len() ==> p(#[trigger] s.drop_last()[i]));
        lemma_filter_keep_all(s.drop_last(), p);
        assert(s.drop_last().push(s.last()) =~= s);
    }
}

/// Removing the element at one position from a table with unique link
/// ids is the same as filtering its id out.
pub proof fn lemma_remove_is_filter(s: Seq<Link>, i: int, id0: Seq<char>)
    requires
        distinct_link_ids(s),
        0 <= i < s.len(),
        s[i].id@ == id0,
    ensures
        s.remove(i) == s.filter(|x: Link| x.id@ != id0),
    decreases s.len(),
{
    reveal(Seq::filter);
    let p = |x: Link| x.id@ != id0;
    if i == s.len() - 1 {
        assert(s.remove(i) =~= s.drop_last());
        assert(!p(s.last()));
        assert(forall|j: int| 0 <= j < s.drop_last().len() ==> p(#[trigger] s.drop_last()[j]));
        lemma_filter_keep_all(s.drop_last(), p);
    } else {
        assert(distinct_link_ids(s.drop_last()));
        lemma_remove_is_filter(s.drop_last(), i, id0);
        assert(s.remove(i).drop_last() =~= s.drop_last().remove(i));
        assert(s.remove(i).last() == s.last());
        assert(p(s.last()));
        assert(s.remove(i) =~= s.remove(i).drop_last().push(s.last()));
        assert(s.filter(p) == s.drop_last().filter(p).push(s.last()));
    }
}

/// Two filters in a row are the conjunction filter.
pub proof fn lemma_filter_filter(s: Seq<Link>, p: spec_fn(Link) -> bool, q: spec_fn(Link) -> bool)
    ensures
        s.filter(p).filter(q) == s.filter(|x: Link| p(x) && q(x)),
    decreases s.len(),
{
    reveal(Seq::filter);
    if s.len() > 0 {
        lemma_filter_filter(s.drop_last(), p, q);
        let sub = s.drop_last().filter(p);
        if p(s.last()) {
            assert(s.filter(p) == sub.push(s.last()));
            assert(sub.push(s.last()).drop_last() =~= sub);
            assert(sub.push(s.last()).last() == s.last());
        }
    }
}

/// Filters by predicates that agree on the table's own elements are
/// equal.
pub proof fn lemma_filter_ptwise(s: Seq<Link>, p: spec_fn(Link) -> bool, q: spec_fn(Link) -> bool)
    requires
        forall|i: int| 0 <= i < s.len() ==> p(#[trigger] s[i]) == q(s[i]),
    ensures
        s.filter(p) == s.filter(q),
    decreases s.len(),
{
    reveal(Seq::filter);
    if s.len() > 0 {
        assert(forall|i: int|
            0 <= i < s.drop_last().len() ==> p(#[trigger] s.drop_last()[i]) == q(
                s.drop_last()[i],
            ));
        lemma_filter_ptwise(s.drop_last(), p, q);
        assert(p(s.last()) == q(s.last()));
    }
}

/// Filtering a table with unique link ids keeps the ids unique.
pub proof fn lemma_filter_distinct_ids(s: Seq<Link>, p: spec_fn(Link) -> bool)
    requires
        distinct_link_ids(s),
    ensures
        distinct_link_ids(s.filter(p)),
    decreases s.len(),
{
    reveal(Seq::filter);
    if s.len() > 0 {
        assert(distinct_link_ids(s.drop_last()));
        lemma_filter_distinct_ids(s.drop_last(), p);
        let sub = s.drop_last().filter(p);
        if p(s.last()) {
            let f = s.filter(p);
            assert(f == sub.push(s.last()));
            assert forall|a: int, b: int| 0 <= a < b < f.len() implies f[a].id@ != f[b].id@ by {
                if b < f.len() - 1 {
                    assert(sub[a].id@ != sub[b].id@);
                } else {
                    lemma_filter_origin(s.drop_last(), p, a);
                    let j = choose|j: int|
                        0 <= j < s.drop_last().len() && s.drop_last()[j] == sub[a];
                    assert(s[j].id@ != s[s.len() - 1].id@);
                }
            }
        }
    }
}

/// A positive reference count exhibits a referencing link.
pub proof fn lemma_count_refs_pos_exists(links: Seq<Link>, sid: Seq<char>)
    requires
        count_refs(links, sid) > 0,
    ensures
        exists|i: int| 0 <= i < links.len() && (#[trigger] links[i]).source_id@ == sid,
    decreases links.len(),
{
    if links.len() > 0 {
        if links.last().source_id@ == sid {
            assert(links[links.len() - 1].source_id@ == sid);
        } else {
            lemma_count_refs_pos_exists(links.drop_last(), sid);
            let i = choose|i: int|
                0 <= i < links.drop_last().len() && (#[trigger] links.drop_last()[i]).source_id@
                    == sid;
            assert(links[i].source_id@ == sid);
        }
    }
}

/// Every link's source exists.
pub open spec fn links_resolve(links: Seq<Link>, sources: Seq<Source>) -> bool {
    forall|i: int| 0 <= i < links.len() ==> has_source_id(sources, #[trigger] links[i].source_id@)
}

/// Every source is live and its count equals the number of links that
/// reference it.
pub open spec fn counts_match(links: Seq<Link>, sources: Seq<Source>) -> bool {
    forall|i: int|
        0 <= i < sources.len() ==> (#[trigger] sources[i]).count == count_refs(
            links,
            sources[i].id@,
        ) && sources[i].count >= 1
}

/// Any two sources hold distinct content hashes.
pub open spec fn distinct_hashes(sources: Seq<Source>) -> bool {
    forall|i: int, j: int|
        0 <= i < j < sources.len() ==> sources[i].hash256@ != sources[j].hash256@
}

/// Whether a source other than `id` already carries this hash.
pub open spec fn has_other_source_hash(
    sources: Seq<Source>,
    id: Seq<char>,
    hash256: Seq<char>,
) -> bool {
    exists|i: int|
        0 <= i < sources.len() && sources[i].id@ != id && sources[i].hash256@ == hash256
}

/// Outcome of an in-place overwrite (`cover`): links untouched, the
/// covered source's row rewritten to describe the new content with its
/// count kept, every other row and blob untouched, and the content map
/// now recording the new bytes under the covered source's id.
pub open spec fn cover_outcome(
    o: StoreManager,
    f: StoreManager,
    si: int,
    h: Seq<char>,
    compressed: bool,
    data: Seq<u8>,
) -> bool {
    let s = o.spec_sources()[si];
    &&& f.spec_links() == o.spec_links()
    &&& f.spec_sources().len() == o.spec_sources().len()
    &&& (forall|j: int|
        0 <= j < o.spec_sources().len() && j != si ==> #[trigger] f.spec_sources()[j]
            == o.spec_sources()[j] && f.spec_blobs()[j] == o.spec_blobs()[j])
    &&& f.spec_sources()[si].id == s.id
    &&& f.spec_sources()[si].hash256@ == h
    &&& f.spec_sources()[si].compressed == compressed
    &&& f.spec_sources()[si].size == data.len()
    &&& f.spec_sources()[si].count == s.count
    &&& f.spec_sources()[si].create_at == s.create_at
    &&& f.spec_contents() == o.spec_contents().insert(s.id@, data)
    &&& (distinct_hashes(o.spec_sources()) && !has_other_source_hash(o.spec_sources(), s.id@, h)
        ==> distinct_hashes(f.spec_sources()))
}

/// Outcome of re-binding an existing name to changed content without
/// `cover`: the old binding is released (its source deleted when this
/// was its last reference, else its count decremented), a fresh source
/// holding the new content is appended, and the link is repointed at it.
pub open spec fn rebind_outcome(
    o: StoreManager,
    f: StoreManager,
    lk: Link,
    si: int,
    h: Seq<char>,
    compressed: bool,
    data: Seq<u8>,
) -> bool {
    let li = link_at(o.spec_links(), lk.id@);
    let news = f.spec_sources().last();
    let s = o.spec_sources()[si];
    &&& f.spec_links().len() == o.spec_links().len()
    &&& (forall|j: int|
        0 <= j < o.spec_links().len() && j != li ==> #[trigger] f.spec_links()[j]
            == o.spec_links()[j])
    &&& f.spec_links()[li].id == o.spec_links()[li].id
    &&& f.spec_links()[li].name == o.spec_links()[li].name
    &&& f.spec_links()[li].ext == o.spec_links()[li].ext
    &&& f.spec_links()[li].source_id@ == news.id@
    &&& !has_source_id(o.spec_sources(), news.id@)
    &&& news.hash256@ == h
    &&& news.compressed == compressed
    &&& news.size == data.len()
    &&& news.count == 1
    &&& (s.count == 1 ==> f.spec_sources().drop_last() == o.spec_sources().remove(si))
    &&& (s.count > 1 ==> {
        &&& f.spec_sources().len() == o.spec_sources().len() + 1
        &&& (forall|j: int|
            0 <= j < o.spec_sources().len() && j != si ==> #[trigger] f.spec_sources()[j]
                == o.spec_sources()[j])
        &&& f.spec_sources()[si].id == s.id
        &&& f.spec_sources()[si].hash256@ == s.hash256@
        &&& f.spec_sources()[si].compressed == s.compressed
        &&& f.spec_sources()[si].size == s.size
        &&& f.spec_sources()[si].count == s.count - 1
        &&& f.spec_sources()[si].create_at == s.create_at
    })
    &&& f.spec_contents() == o.spec_contents().insert(news.id@, data)
    &&& (distinct_hashes(o.spec_sources()) && !has_other_source_hash(o.spec_sources(), s.id@, h)
        && (s.count == 1 || s.hash256@ != h) ==> distinct_hashes(f.spec_sources()))
}

/// Outcome of putting known content under a fresh name: one new link
/// pointing at the first source that already carries the content's
/// hash, whose count grows by exactly one; no blob is written and no
/// other row changes.
pub open spec fn dedup_outcome(
    o: StoreManager,
    f: StoreManager,
    name: Seq<char>,
    h: Seq<char>,
) -> bool {
    let hi = first_hash_at(o.spec_sources(), h);
    let s = o.spec_sources()[hi];
    &&& f.spec_links().len() == o.spec_links().len() + 1
    &&& f.spec_links().take(o.spec_links().len() as int) == o.spec_links()
    &&& f.spec_links().last().name@ == name
    &&& f.spec_links().last().ext@ == ext_of(name)
    &&& f.spec_links().last().source_id@ == s.id@
    &&& f.spec_sources().len() == o.spec_sources().len()
    &&& (forall|j: int|
        0 <= j < o.spec_sources().len() && j != hi ==> #[trigger] f.spec_sources()[j]
            == o.spec_sources()[j])
    &&& f.spec_sources()[hi].id == s.id
    &&& f.spec_sources()[hi].hash256@ == s.hash256@
    &&& f.spec_sources()[hi].compressed == s.compressed
    &&& f.spec_sources()[hi].size == s.size
    &&& f.spec_sources()[hi].count == s.count + 1
    &&& f.spec_sources()[hi].create_at == s.create_at
    &&& f.spec_blobs() == o.spec_blobs()
    &&& f.spec_contents() == o.spec_contents()
    &&& (distinct_hashes(o.spec_sources()) ==> distinct_hashes(f.spec_sources()))
}

/// Outcome of putting novel content under a fresh name: one new link
/// and one new source appended, the blob written, and the content map
/// extended with the new bytes under the fresh id.
pub open spec fn fresh_outcome(
    o: StoreManager,
    f: StoreManager,
    name: Seq<char>,
    h: Seq<char>,
    compressed: bool,
    data: Seq<u8>,
) -> bool {
    let news = f.spec_sources().last();
    &&& f.spec_links().len() == o.spec_links().len() + 1
    &&& f.spec_links().take(o.spec_links().len() as int) == o.spec_links()
    &&& f.spec_links().last().name@ == name
    &&& f.spec_links().last().ext@ == ext_of(name)
    &&& f.spec_links().last().source_id@ == news.id@
    &&& f.spec_sources().len() == o.spec_sources().len() + 1
    &&& f.spec_sources().take(o.spec_sources().len() as int) == o.spec_sources()
    &&& !has_source_id(o.spec_sources(), news.id@)
    &&& news.hash256@ == h
    &&& news.compressed == compressed
    &&& news.size == data.len()
    &&& news.count == 1
    &&& f.spec_contents() == o.spec_contents().insert(news.id@, data)
    &&& (distinct_hashes(o.spec_sources()) ==> distinct_hashes(f.spec_sources()))
}

/// What a successful put did, by case: an in-place overwrite under
/// `cover`, a no-op on identical content, a re-bind of the name to a
/// fresh source, one more reference to deduplicated content, or a
/// fresh link, source and blob.
pub open spec fn put_ok_outcome(
    o: StoreManager,
    f: StoreManager,
    name: Seq<char>,
    h: Seq<char>,
    cover: bool,
    compressed: bool,
    data: Seq<u8>,
) -> bool {
    let ms = o.spec_links().filter(|l: Link| matches_name(l, name, false));
    if ms.len() > 0 {
        let lk = ms[0];
        let si = source_at(o.spec_sources(), lk.source_id@);
        let s = o.spec_sources()[si];
        if cover {
            cover_outcome(o, f, si, h, compressed, data)
        } else if h == s.hash256@ && s.compressed == compressed {
            f == o
        } else {
            rebind_outcome(o, f, lk, si, h, compressed, data)
        }
    } else {
        if has_source_hash(o.spec_sources(), h) {
            dedup_outcome(o, f, name, h)
        } else {
            fresh_outcome(o, f, name, h, compressed, data)
        }
    }
}

/// The blob and ghost content entry of the `i`-th source agree with its
/// catalogue row: the recorded hash and size describe the content, and
/// the blob stores it raw or codec-framed as the row says.
pub open spec fn blob_ok(
    sources: Seq<Source>,
    blobs: Seq<(String, Vec<u8>)>,
    contents: Map<Seq<char>, Seq<u8>>,
    i: int,
) -> bool {
    let s = sources[i];
    &&& blobs[i].0@ == s.id@
    &&& contents.contains_key(s.id@)
    &&& contents[s.id@].len() == s.size
    &&& s.hash256@ == blake3_hex_of(contents[s.id@])
    &&& (if s.compressed {
        decode_result(blobs[i].1@) == Ok::<Seq<u8>, CodecError>(contents[s.id@])
    } else {
        blobs[i].1@ == contents[s.id@]
    })
}

/// Some row of the earlier table carries this row's identity and
/// content description.
pub open spec fn source_kept(os: Seq<Source>, s: Source) -> bool {
    exists|i: int|
        0 <= i < os.len() && (#[trigger] os[i]).id == s.id && os[i].hash256@ == s.hash256@
            && os[i].compressed == s.compressed && os[i].size == s.size && os[i].create_at
            == s.create_at
}

/// Every surviving source row keeps the identity and content
/// description of a row of the earlier table.
pub open spec fn sources_preserved(os: Seq<Source>, fs: Seq<Source>) -> bool {
    forall|j: int| 0 <= j < fs.len() ==> source_kept(os, #[trigger] fs[j])
}

proof fn lemma_sources_preserved_refl(s: Seq<Source>)
    ensures
        sources_preserved(s, s),
{
    assert forall|j: int| 0 <= j < s.len() implies source_kept(s, #[trigger] s[j]) by {
        assert(0 <= j < s.len() && s[j].id == s[j].id);
    }
}

proof fn lemma_sources_preserved_trans(a: Seq<Source>, b: Seq<Source>, c: Seq<Source>)
    requires
        sources_preserved(a, b),
        sources_preserved(b, c),
    ensures
        sources_preserved(a, c),
{
    assert forall|j: int| 0 <= j < c.len() implies source_kept(a, #[trigger] c[j]) by {
        assert(source_kept(b, c[j]));
        let i1 = choose|i1: int|
            0 <= i1 < b.len() && (#[trigger] b[i1]).id == c[j].id && b[i1].hash256@
                == c[j].hash256@ && b[i1].compressed == c[j].compressed && b[i1].size == c[j].size
                && b[i1].create_at == c[j].create_at;
        assert(source_kept(a, b[i1]));
        let i0 = choose|i0: int|
            0 <= i0 < a.len() && (#[trigger] a[i0]).id == b[i1].id && a[i0].hash256@
                == b[i1].hash256@ && a[i0].compressed == b[i1].compressed && a[i0].size
                == b[i1].size && a[i0].create_at == b[i1].create_at;
        assert(0 <= i0 < a.len() && a[i0].id == c[j].id && a[i0].hash256@ == c[j].hash256@
            && a[i0].compressed == c[j].compressed && a[i0].size == c[j].size && a[i0].create_at
            == c[j].create_at);
    }
}

/// What a delete call selects: everything for an empty or `*` pattern
/// under wildcards, a SQL-LIKE match for a `*` pattern, else an exact
/// name match.
pub open spec fn delete_pred(pattern: Seq<char>, use_regx: bool) -> spec_fn(Link) -> bool {
    if (pattern.len() == 0 || pattern == seq!['*']) && use_regx {
        |l: Link| true
    } else if pattern.contains('*') && use_regx {
        |l: Link| like_match(star_to_percent(pattern), l.name@)
    } else {
        |l: Link| matches_name(l, pattern, false)
    }
}

/// Outcome of a delete: exactly the selected links are gone, a
/// formerly live source survives precisely while some remaining link
/// still references it, every surviving row keeps its content
/// description, and no content entry changes.
pub open spec fn delete_outcome(o: StoreManager, f: StoreManager, sel: spec_fn(Link) -> bool) -> bool {
    &&& f.spec_links() == o.spec_links().filter(|l: Link| !sel(l))
    &&& f.spec_contents() == o.spec_contents()
    &&& (forall|j: int|
        0 <= j < o.spec_sources().len() ==> (has_source_id(
            f.spec_sources(),
            (#[trigger] o.spec_sources()[j]).id@,
        ) <==> count_refs(f.spec_links(), o.spec_sources()[j].id@) > 0))
    &&& sources_preserved(o.spec_sources(), f.spec_sources())
    &&& (distinct_hashes(o.spec_sources()) ==> distinct_hashes(f.spec_sources()))
}

/// One delete step rewrites the remaining-links filter from "still
/// waiting from position k" to "still waiting from position k + 1".
proof fn lemma_delete_step_links(
    olinks: Seq<Link>,
    matched: Seq<Link>,
    sel: spec_fn(Link) -> bool,
    k: int,
    cur: Seq<Link>,
    li: int,
)
    requires
        distinct_link_ids(olinks),
        matched == olinks.filter(sel),
        distinct_link_ids(matched),
        0 <= k < matched.len(),
        cur == olinks.filter(
            |l: Link| !sel(l) || has_link_id(matched.skip(k), l.id@),
        ),
        0 <= li < cur.len(),
        cur[li].id@ == matched[k].id@,
    ensures
        cur.remove(li) == olinks.filter(
            |l: Link| !sel(l) || has_link_id(matched.skip(k + 1), l.id@),
        ),
{
    let id0 = matched[k].id@;
    let pk = |l: Link| !sel(l) || has_link_id(matched.skip(k), l.id@);
    let pk1 = |l: Link| !sel(l) || has_link_id(matched.skip(k + 1), l.id@);
    let q = |x: Link| x.id@ != id0;
    assert(distinct_link_ids(cur)) by {
        lemma_filter_distinct_ids(olinks, pk);
    }
    lemma_remove_is_filter(cur, li, id0);
    lemma_filter_filter(olinks, pk, q);
    assert(cur.remove(li) == olinks.filter(|x: Link| pk(x) && q(x)));
    // skip(k) is matched[k] followed by skip(k + 1)
    assert(matched.skip(k)[0] == matched[k]);
    assert(matched.skip(k).skip(1) =~= matched.skip(k + 1));
    assert forall|x: int| 0 <= x < olinks.len() implies (pk(#[trigger] olinks[x]) && q(olinks[x]))
        == pk1(olinks[x]) by {
        let xl = olinks[x];
        if xl.id@ == id0 {
            // matched[k] stems from olinks; unique ids make it olinks[x]
            lemma_filter_origin(olinks, sel, k);
            let j = choose|j: int| 0 <= j < olinks.len() && olinks[j] == matched[k];
            lemma_link_id_unique(olinks, j, x);
            assert(xl == matched[k]);
            assert(sel(xl));
            assert(!has_link_id(matched.skip(k + 1), id0)) by {
                if has_link_id(matched.skip(k + 1), id0) {
                    let w = choose|w: int|
                        0 <= w < matched.skip(k + 1).len() && (#[trigger] matched.skip(
                            k + 1,
                        )[w]).id@ == id0;
                    assert(matched[k + 1 + w].id@ == id0);
                    assert(matched[k].id@ != matched[k + 1 + w].id@);
                }
            }
            assert(!pk1(xl) && !(pk(xl) && q(xl)));
        } else {
            assert(has_link_id(matched.skip(k), xl.id@) == has_link_id(
                matched.skip(k + 1),
                xl.id@,
            )) by {
                if has_link_id(matched.skip(k), xl.id@) {
                    let w = choose|w: int|
                        0 <= w < matched.skip(k).len() && (#[trigger] matched.skip(k)[w]).id@
                            == xl.id@;
                    assert(w != 0);
                    assert(matched.skip(k + 1)[w - 1].id@ == xl.id@);
                }
                if has_link_id(matched.skip(k + 1), xl.id@) {
                    let w = choose|w: int|
                        0 <= w < matched.skip(k + 1).len() && (#[trigger] matched.skip(
                            k + 1,
                        )[w]).id@ == xl.id@;
                    assert(matched.skip(k)[w + 1].id@ == xl.id@);
                }
            }
        }
    }
    lemma_filter_ptwise(olinks, |x: Link| pk(x) && q(x), pk1);
}

/// Restores the store invariant after one delete step: the link at
/// `li` is gone and its source was released with the branch chosen by
/// the decremented count.
proof fn lemma_delete_iter_restore(c: StoreManager, f: StoreManager, l: Link, sidx: int)
    requires
        c.wf(),
        0 <= sidx < c.spec_sources().len(),
        c.spec_sources()[sidx].id@ == l.source_id@,
        has_link_id(c.spec_links(), l.id@),
        c.spec_links()[link_at(c.spec_links(), l.id@)] == l,
        f.dao_wf(),
        f.codec_wf(),
        f.spec_links() == c.spec_links().remove(link_at(c.spec_links(), l.id@)),
        f.spec_contents() == c.spec_contents(),
        c.spec_sources()[sidx].count == 1 ==> f.spec_sources() == c.spec_sources().remove(sidx)
            && f.spec_blobs() == c.spec_blobs().remove(sidx),
        c.spec_sources()[sidx].count > 1 ==> {
            &&& f.spec_sources().len() == c.spec_sources().len()
            &&& f.spec_blobs() == c.spec_blobs()
            &&& (forall|j: int|
                0 <= j < c.spec_sources().len() && j != sidx ==> #[trigger] f.spec_sources()[j]
                    == c.spec_sources()[j])
            &&& f.spec_sources()[sidx].id == c.spec_sources()[sidx].id
            &&& f.spec_sources()[sidx].hash256@ == c.spec_sources()[sidx].hash256@
            &&& f.spec_sources()[sidx].compressed == c.spec_sources()[sidx].compressed
            &&& f.spec_sources()[sidx].size == c.spec_sources()[sidx].size
            &&& f.spec_sources()[sidx].count == c.spec_sources()[sidx].count - 1
            &&& f.spec_sources()[sidx].create_at == c.spec_sources()[sidx].create_at
        },
    ensures
        f.wf(),
        sources_preserved(c.spec_sources(), f.spec_sources()),
        distinct_hashes(c.spec_sources()) ==> distinct_hashes(f.spec_sources()),
{
    let ss = c.spec_sources();
    let fs = f.spec_sources();
    let fl = f.spec_links();
    let cl = c.spec_links();
    let sid = l.source_id@;
    let li = link_at(cl, l.id@);
    let removed_source = ss[sidx].count == 1;
    cl.remove_ensures(li);
    lemma_count_refs_remove(cl, sid, li);
    assert(ss[sidx].count == count_refs(cl, sid) && ss[sidx].count >= 1);
    if removed_source {
        ss.remove_ensures(sidx);
        c.spec_blobs().remove_ensures(sidx);
        assert forall|k: int| 0 <= k < fl.len() implies (#[trigger] fl[k]).source_id@ != sid by {
            let ok = if k < li {
                k
            } else {
                k + 1
            };
            assert(fl[k] == cl[ok]);
            if cl[ok].source_id@ == sid {
                lemma_count_refs_two(cl, sid, ok, li);
            }
        }
        lemma_count_refs_zero(fl, sid);
    }
    // index map for sources
    assert forall|i2: int| 0 <= i2 < fs.len() implies #[trigger] fs[i2] == (
    if removed_source {
        ss[if i2 < sidx {
            i2
        } else {
            i2 + 1
        }]
    } else {
        if i2 == sidx {
            fs[sidx]
        } else {
            ss[i2]
        }
    }) by {}
    // counts and liveness
    assert forall|i2: int| 0 <= i2 < fs.len() implies (#[trigger] fs[i2]).count == count_refs(
        fl,
        fs[i2].id@,
    ) && fs[i2].count >= 1 by {
        let oi = if removed_source {
            if i2 < sidx {
                i2
            } else {
                i2 + 1
            }
        } else {
            i2
        };
        assert(ss[oi].count == count_refs(cl, ss[oi].id@) && ss[oi].count >= 1);
        lemma_count_refs_remove(cl, ss[oi].id@, li);
        if oi == sidx {
            assert(!removed_source);
            assert(count_refs(fl, sid) == ss[sidx].count - 1);
        } else {
            if ss[oi].id@ == sid {
                lemma_source_id_unique(ss, oi, sidx);
            }
            assert(count_refs(fl, ss[oi].id@) == count_refs(cl, ss[oi].id@));
        }
    }
    // links resolve
    assert forall|i2: int| 0 <= i2 < fl.len() implies has_source_id(
        fs,
        #[trigger] fl[i2].source_id@,
    ) by {
        let ok = if i2 < li {
            i2
        } else {
            i2 + 1
        };
        assert(fl[i2] == cl[ok]);
        assert(has_source_id(ss, cl[ok].source_id@));
        let j = choose|j: int| 0 <= j < ss.len() && ss[j].id@ == cl[ok].source_id@;
        if removed_source {
            assert(fl[i2].source_id@ != sid);
            if j == sidx {
                assert(ss[j].id@ == sid);
            }
            if j < sidx {
                assert(fs[j].id@ == ss[j].id@);
            } else {
                assert(fs[j - 1].id@ == ss[j].id@);
            }
        } else {
            assert(fs[j].id@ == ss[j].id@);
        }
    }
    // blobs
    assert forall|i2: int| 0 <= i2 < fs.len() implies #[trigger] blob_ok(
        fs,
        f.spec_blobs(),
        f.spec_contents(),
        i2,
    ) by {
        let oi = if removed_source {
            if i2 < sidx {
                i2
            } else {
                i2 + 1
            }
        } else {
            i2
        };
        assert(blob_ok(ss, c.spec_blobs(), c.spec_contents(), oi));
        assert(f.spec_blobs()[i2] == c.spec_blobs()[oi]);
    }
    // preservation and hash distinctness
    assert forall|j: int| 0 <= j < fs.len() implies source_kept(ss, #[trigger] fs[j]) by {
        let oi = if removed_source {
            if j < sidx {
                j
            } else {
                j + 1
            }
        } else {
            j
        };
        assert(0 <= oi < ss.len() && fs[j].id == ss[oi].id && fs[j].hash256@ == ss[oi].hash256@
            && fs[j].compressed == ss[oi].compressed && fs[j].size == ss[oi].size
            && fs[j].create_at == ss[oi].create_at);
    }
    if distinct_hashes(ss) {
        assert forall|a: int, b: int| 0 <= a < b < fs.len() implies fs[a].hash256@
            != fs[b].hash256@ by {
            let oa = if removed_source {
                if a < sidx {
                    a
                } else {
                    a + 1
                }
            } else {
                a
            };
            let ob = if removed_source {
                if b < sidx {
                    b
                } else {
                    b + 1
                }
            } else {
                b
            };
            assert(fs[a].hash256@ == ss[oa].hash256@ && fs[b].hash256@ == ss[ob].hash256@);
            assert(oa < ob);
            assert(ss[oa].hash256@ != ss[ob].hash256@);
        }
    }
}

/// Restores the store invariant and the dedup outcome after adding one
/// link for already-stored content and raising its source's count.
proof fn lemma_dedup_restore(o: StoreManager, f: StoreManager, name: Seq<char>, h: Seq<char>, hi: int)
    requires
        o.wf(),
        f.dao_wf(),
        f.codec_wf(),
        0 <= hi < o.spec_sources().len(),
        o.spec_sources()[hi].hash256@ == h,
        forall|k: int| 0 <= k < hi ==> o.spec_sources()[k].hash256@ != h,
        o.spec_sources()[hi].count < u64::MAX,
        f.spec_links().len() == o.spec_links().len() + 1,
        f.spec_links().take(o.spec_links().len() as int) == o.spec_links(),
        f.spec_links().last().name@ == name,
        f.spec_links().last().ext@ == ext_of(name),
        f.spec_links().last().source_id@ == o.spec_sources()[hi].id@,
        f.spec_sources().len() == o.spec_sources().len(),
        forall|j: int|
            0 <= j < o.spec_sources().len() && j != hi ==> #[trigger] f.spec_sources()[j]
                == o.spec_sources()[j],
        f.spec_sources()[hi].id == o.spec_sources()[hi].id,
        f.spec_sources()[hi].hash256@ == o.spec_sources()[hi].hash256@,
        f.spec_sources()[hi].compressed == o.spec_sources()[hi].compressed,
        f.spec_sources()[hi].size == o.spec_sources()[hi].size,
        f.spec_sources()[hi].count == o.spec_sources()[hi].count + 1,
        f.spec_sources()[hi].create_at == o.spec_sources()[hi].create_at,
        f.spec_blobs() == o.spec_blobs(),
        f.spec_contents() == o.spec_contents(),
    ensures
        f.wf(),
        dedup_outcome(o, f, name, h),
{
    let ss = o.spec_sources();
    let fs = f.spec_sources();
    let fl = f.spec_links();
    let sid = ss[hi].id@;
    assert(fl.drop_last() =~= o.spec_links());
    assert forall|i2: int| 0 <= i2 < fs.len() implies (#[trigger] fs[i2]).count == count_refs(
        fl,
        fs[i2].id@,
    ) && fs[i2].count >= 1 by {
        assert(ss[i2].count == count_refs(o.spec_links(), ss[i2].id@) && ss[i2].count >= 1);
        if i2 != hi {
            assert(fs[i2] == ss[i2]);
            if ss[i2].id@ == sid {
                lemma_source_id_unique(ss, i2, hi);
            }
            assert(count_refs(fl, ss[i2].id@) == count_refs(o.spec_links(), ss[i2].id@));
        } else {
            assert(count_refs(fl, sid) == count_refs(o.spec_links(), sid) + 1);
        }
    }
    assert forall|i2: int| 0 <= i2 < fl.len() implies has_source_id(
        fs,
        #[trigger] fl[i2].source_id@,
    ) by {
        if i2 == fl.len() - 1 {
            assert(fs[hi].id@ == sid);
        } else {
            assert(fl[i2] == o.spec_links()[i2]);
            assert(has_source_id(ss, o.spec_links()[i2].source_id@));
            let j = choose|j: int| 0 <= j < ss.len() && ss[j].id@ == o.spec_links()[i2].source_id@;
            assert(fs[j].id@ == ss[j].id@);
        }
    }
    assert forall|i2: int| 0 <= i2 < fs.len() implies #[trigger] blob_ok(
        fs,
        f.spec_blobs(),
        f.spec_contents(),
        i2,
    ) by {
        assert(blob_ok(ss, o.spec_blobs(), o.spec_contents(), i2));
    }
    assert(dedup_outcome(o, f, name, h)) by {
        let c = first_hash_at(ss, h);
        assert(0 <= c < ss.len() && ss[c].hash256@ == h && (forall|k: int|
            0 <= k < c ==> ss[k].hash256@ != h));
        if c < hi {
            assert(ss[c].hash256@ != h);
        } else if hi < c {
            assert(ss[hi].hash256@ != h);
        }
        if distinct_hashes(ss) {
            assert forall|a: int, b: int| 0 <= a < b < fs.len() implies fs[a].hash256@
                != fs[b].hash256@ by {
                assert(fs[a].hash256@ == ss[a].hash256@ && fs[b].hash256@ == ss[b].hash256@);
            }
        }
    }
}

/// Before any step, nothing selected has been removed yet.
proof fn lemma_delete_init(olinks: Seq<Link>, matched: Seq<Link>, sel: spec_fn(Link) -> bool)
    requires
        distinct_link_ids(olinks),
        matched == olinks.filter(sel),
    ensures
        distinct_link_ids(matched),
        olinks.filter(|l: Link| !sel(l) || has_link_id(matched.skip(0), l.id@)) == olinks,
{
    lemma_filter_distinct_ids(olinks, sel);
    assert(matched.skip(0) =~= matched);
    assert forall|i: int| 0 <= i < olinks.len() implies (
    |l: Link| !sel(l) || has_link_id(matched.skip(0), l.id@))(#[trigger] olinks[i]) by {
        let xl = olinks[i];
        if sel(xl) {
            olinks.lemma_filter_contains(sel, i);
            let w = choose|w: int| 0 <= w < matched.len() && #[trigger] matched[w] == xl;
            assert(matched.skip(0)[w].id@ == xl.id@);
        }
    }
    lemma_filter_keep_all(olinks, |l: Link| !sel(l) || has_link_id(matched.skip(0), l.id@));
}

/// After the last step, exactly the unselected links remain.
proof fn lemma_delete_finish(olinks: Seq<Link>, matched: Seq<Link>, sel: spec_fn(Link) -> bool)
    requires
        matched == olinks.filter(sel),
    ensures
        olinks.filter(
            |l: Link| !sel(l) || has_link_id(matched.skip(matched.len() as int), l.id@),
        ) == olinks.filter(|l: Link| !sel(l)),
{
    let m = matched.len() as int;
    assert(matched.skip(m) =~= Seq::<Link>::empty());
    assert forall|i: int| 0 <= i < olinks.len() implies (
    |l: Link| !sel(l) || has_link_id(matched.skip(m), l.id@))(#[trigger] olinks[i]) == (
    |l: Link| !sel(l))(olinks[i]) by {
        assert(!has_link_id(matched.skip(m), olinks[i].id@));
    }
    lemma_filter_ptwise(
        olinks,
        |l: Link| !sel(l) || has_link_id(matched.skip(m), l.id@),
        |l: Link| !sel(l),
    );
}

/// In a well-formed store a source id is live exactly while some link
/// references it.
proof fn lemma_live_iff_referenced(f: &StoreManager, id: Seq<char>)
    requires
        f.wf(),
    ensures
        has_source_id(f.spec_sources(), id) <==> count_refs(f.spec_links(), id) > 0,
{
    if has_source_id(f.spec_sources(), id) {
        let w = choose|w: int|
            0 <= w < f.spec_sources().len() && (#[trigger] f.spec_sources()[w]).id@ == id;
        assert(f.spec_sources()[w].count == count_refs(f.spec_links(), id)
            && f.spec_sources()[w].count >= 1);
    }
    if count_refs(f.spec_links(), id) > 0 {
        lemma_count_refs_pos_exists(f.spec_links(), id);
        let w = choose|w: int|
            0 <= w < f.spec_links().len() && (#[trigger] f.spec_links()[w]).source_id@ == id;
        assert(has_source_id(f.spec_sources(), f.spec_links()[w].source_id@));
    }
}

/// The content store.
pub struct StoreManager {
    dao: Dao,
    blobs: Vec<(String, Vec<u8>)>,
    bm: BlockManager,
    contents: Ghost<Map<Seq<char>, Seq<u8>>>,
}

impl StoreManager {
    /// The link table.
    pub closed spec fn spec_links(&self) -> Seq<Link> {
        self.dao.spec_links()
    }

    /// The source table.
    pub closed spec fn spec_sources(&self) -> Seq<Source> {
        self.dao.spec_sources()
    }

    /// The blob area, parallel to the source table.
    pub closed spec fn spec_blobs(&self) -> Seq<(String, Vec<u8>)> {
        self.blobs@
    }

    /// The original bytes of every live source, by source id.
    pub closed spec fn spec_contents(&self) -> Map<Seq<char>, Seq<u8>> {
        self.contents@
    }

    /// The catalogue's own invariant.
    pub closed spec fn dao_wf(&self) -> bool {
        self.dao.wf()
    }

    /// The store invariant.
    pub open spec fn wf(&self) -> bool {
        &&& self.dao_wf()
        &&& self.codec_wf()
        &&& self.spec_blobs().len() == self.spec_sources().len()
        &&& links_resolve(self.spec_links(), self.spec_sources())
        &&& counts_match(self.spec_links(), self.spec_sources())
        &&& forall|i: int|
            0 <= i < self.spec_sources().len() ==> #[trigger] blob_ok(
                self.spec_sources(),
                self.spec_blobs(),
                self.spec_contents(),
                i,
            )
    }

    /// The codec configuration is sound.
    pub closed spec fn codec_wf(&self) -> bool {
        self.bm.wf()
    }

    /// An empty store.
    pub fn new() -> (r: StoreManager)
        ensures
            r.wf(),
            r.spec_links().len() == 0,
            r.spec_sources().len() == 0,
    {
        StoreManager {
            dao: Dao::new(),
            blobs: Vec::new(),
            bm: BlockManager::new(),
            contents: Ghost(Map::empty()),
        }
    }

    /// The number of live sources; the blob area holds one blob per
    /// source, at the same index.
    pub fn source_count(&self) -> (r: usize)
        requires
            self.wf(),
        ensures
            r == self.spec_sources().len(),
    {
        self.blobs.len()
    }

    /// The `i`-th source row — for walking the catalogue when the
    /// store is persisted.
    pub fn source_row(&self, i: usize) -> (r: &Source)
        requires
            self.wf(),
            i < self.spec_sources().len(),
        ensures
            *r == self.spec_sources()[i as int],
    {
        self.dao.source_ref(i)
    }

    /// The stored blob of the `i`-th source: keyed by that source's
    /// id, holding its content raw or codec-framed as the row's
    /// `compressed` flag says.
    pub fn blob_bytes(&self, i: usize) -> (r: &Vec<u8>)
        requires
            self.wf(),
            i < self.spec_sources().len(),
        ensures
            r@ == self.spec_blobs()[i as int].1@,
            self.spec_blobs()[i as int].0@ == self.spec_sources()[i as int].id@,
    {
        proof {
            assert(blob_ok(
                self.spec_sources(),
                self.spec_blobs(),
                self.spec_contents(),
                i as int,
            ));
        }
        &self.blobs[i].1
    }

    /// A fresh source id, 22 characters: a 14-decimal-digit UTC
    /// timestamp — so ids sort by creation time — followed by an
    /// 8-character base62 nonce.
    fn file_name_gen() -> (r: String)
        ensures
            r@.len() == 22,
            forall|j: int| 0 <= j < 14 ==> is_dec_digit(#[trigger] r@[j]),
            forall|j: int| 14 <= j < 22 ==> is_base62(#[trigger] r@[j]),
    {
        let t = utc_compact_timestamp();
        let n = nanoid8();
        let r = t.concat(n.as_str());
        proof {
            assert(forall|j: int| 14 <= j < 22 ==> #[trigger] r@[j] == n@[j - 14]);
        }
        r
    }

    /// What a list query selects: by extension, everything (bounded by
    /// `n`) for an empty or `*` pattern under wildcards, a SQL-LIKE
    /// match for a `*` pattern, else an exact name match.
    pub open spec fn spec_list(
        &self,
        pattern: Seq<char>,
        n: u64,
        isext: bool,
        use_regex: bool,
    ) -> Seq<Link> {
        if isext {
            self.spec_links().filter(|l: Link| l.ext@ == pattern)
        } else if (pattern.len() == 0 || pattern == seq!['*']) && use_regex {
            if n == 0 || n >= self.spec_links().len() {
                self.spec_links()
            } else {
                self.spec_links().take(n as int)
            }
        } else if pattern.contains('*') && use_regex {
            self.spec_links().filter(
                |l: Link| like_match(star_to_percent(pattern), l.name@),
            )
        } else {
            self.spec_links().filter(|l: Link| matches_name(l, pattern, false))
        }
    }

    /// Search the catalogue's links.
    pub fn list(&self, pattern: &str, n: u64, isext: bool, use_regex: bool) -> (r: Vec<Link>)
        ensures
            r@ == self.spec_list(pattern@, n, isext, use_regex),
    {
        if isext {
            self.dao.get_links_by_ext(pattern)
        } else {
            let mut is_all = pattern.is_empty();
            if !is_all {
                let e = str_eq(pattern, "*");
                proof {
                    reveal_strlit("*");
                    assert("*"@ =~= seq!['*']);
                }
                is_all = e;
            }
            if is_all && use_regex {
                self.dao.get_n_links(n)
            } else if use_regex && contains_star(pattern) {
                let pc = str_chars(pattern);
                let tr = translate_wildcards(&pc);
                self.dao.get_links_like(&tr)
            } else {
                self.dao.get_links_by_name(pattern, false)
            }
        }
    }

    /// Read a named object: resolve the first link with the name, read
    /// its source's blob, and decode it when the source is compressed.
    /// Returns exactly the bytes the store holds for that source.
    pub fn get_binary_data(&self, file_name: &str) -> (r: Result<Vec<u8>, StoreError>)
        requires
            self.wf(),
        ensures
            ({
                let ms = self.spec_links().filter(|l: Link| matches_name(l, file_name@, false));
                &&& (file_name@.len() == 0 ==> r == Err::<Vec<u8>, StoreError>(
                    StoreError::InvalidName,
                ))
                &&& (file_name@.len() > 0 && ms.len() == 0 ==> r == Err::<Vec<u8>, StoreError>(
                    StoreError::NotFound,
                ))
                &&& (file_name@.len() > 0 && ms.len() > 0 ==> r is Ok && r->Ok_0@
                    == self.spec_contents()[ms[0].source_id@])
            }),
    {
        let ghost pred = |l: Link| matches_name(l, file_name@, false);
        if file_name.is_empty() {
            return Err(StoreError::InvalidName);
        }
        let links = self.dao.get_links_by_name(file_name, false);
        if links.len() == 0 {
            return Err(StoreError::NotFound);
        }
        proof {
            lemma_filter_origin(self.spec_links(), pred, 0);
        }
        let link = &links[0];
        let idx = match self.dao.source_index(link.source_id.as_str()) {
            Some(i) => i,
            None => {
                proof {
                    assert(false);
                }
                return Err(StoreError::NotFound);
            },
        };
        let source = self.dao.source_ref(idx);
        proof {
            assert(blob_ok(self.spec_sources(), self.spec_blobs(), self.spec_contents(), idx as int));
        }
        if source.compressed {
            let size = source.size;
            match self.bm.decompress_all(&self.blobs[idx].1, size as usize) {
                Ok(v) => Ok(v),
                Err(_) => {
                    proof {
                        assert(false);
                    }
                    Err(StoreError::NotFound)
                },
            }
        } else {
            Ok(clone_bytes(&self.blobs[idx].1))
        }
    }

    /// Overwrite the source a link points at, in place.
    fn put_cover(
        &mut self,
        link: &Link,
        sidx: usize,
        source: &Source,
        input: &Vec<u8>,
        compressed: bool,
        hash256: &String,
    ) -> (r: Result<(), StoreError>)
        requires
            old(self).wf(),
            sidx < old(self).spec_sources().len(),
            old(self).spec_sources()[sidx as int].id@ == link.source_id@,
            *source == old(self).spec_sources()[sidx as int],
            hash256@ == blake3_hex_of(input@),
        ensures
            final(self).wf(),
            r is Ok,
            cover_outcome(
                *old(self),
                *final(self),
                sidx as int,
                blake3_hex_of(input@),
                compressed,
                input@,
            ),
    {
        let ghost o = *old(self);
        let ghost si = sidx as int;
        let ghost sid = link.source_id@;
        let new_size: u64 = input.len() as u64;
        let blob: Vec<u8> = if compressed {
            match self.bm.compress_all(input) {
                Ok(b) => b,
                Err(_) => {
                    proof {
                        assert(false);
                    }
                    return Err(StoreError::StoreFailed);
                },
            }
        } else {
            clone_bytes(input)
        };
        proof {
            assert(has_source_id(o.spec_sources(), sid));
            let c = source_at(o.spec_sources(), sid);
            assert(0 <= c < o.spec_sources().len() && o.spec_sources()[c].id@ == sid);
            lemma_source_id_unique(o.spec_sources(), c, si);
        }
        self.dao.update_source(
            link.source_id.as_str(),
            hash256.as_str(),
            compressed,
            new_size,
            source.count,
        );
        let ghost ob = self.blobs@;
        self.blobs.remove(sidx);
        let ghost mb = self.blobs@;
        self.blobs.insert(sidx, (link.source_id.clone(), blob));
        self.contents = Ghost(self.contents@.insert(sid, input@));
        proof {
            let f = *self;
            let ss = o.spec_sources();
            let fs = f.spec_sources();
            let fb = f.spec_blobs();
            ob.remove_ensures(si);
            mb.insert_ensures(si, fb[si]);
            assert(forall|j: int| 0 <= j < ss.len() && j != si ==> #[trigger] fb[j] == ob[j]);
            assert(fb[si].0@ == sid && fb[si].1@ == blob@);
            assert forall|i2: int| 0 <= i2 < f.spec_links().len() implies has_source_id(
                fs,
                #[trigger] f.spec_links()[i2].source_id@,
            ) by {
                assert(has_source_id(ss, o.spec_links()[i2].source_id@));
                let j = choose|j: int|
                    0 <= j < ss.len() && ss[j].id@ == o.spec_links()[i2].source_id@;
                assert(fs[j].id@ == o.spec_links()[i2].source_id@);
            }
            assert forall|i2: int| 0 <= i2 < fs.len() implies (#[trigger] fs[i2]).count
                == count_refs(f.spec_links(), fs[i2].id@) && fs[i2].count >= 1 by {
                assert(ss[i2].count == count_refs(o.spec_links(), ss[i2].id@) && ss[i2].count
                    >= 1);
            }
            assert forall|i2: int| 0 <= i2 < fs.len() implies #[trigger] blob_ok(
                fs,
                fb,
                f.spec_contents(),
                i2,
            ) by {
                assert(blob_ok(ss, ob, o.spec_contents(), i2));
                if i2 != si {
                    if ss[i2].id@ == sid {
                        lemma_source_id_unique(ss, i2, si);
                    }
                    assert(f.spec_contents()[ss[i2].id@] == o.spec_contents()[ss[i2].id@]);
                }
            }
            assert(cover_outcome(o, f, si, blake3_hex_of(input@), compressed, input@)) by {
                assert(f.spec_contents() =~= o.spec_contents().insert(sid, input@));
                let h = blake3_hex_of(input@);
                if distinct_hashes(ss) && !has_other_source_hash(ss, sid, h) {
                    assert forall|a: int, b: int| 0 <= a < b < fs.len() implies fs[a].hash256@
                        != fs[b].hash256@ by {
                        if a != si && b != si {
                            assert(ss[a].hash256@ != ss[b].hash256@);
                        } else if a == si {
                            if fs[b].hash256@ == h {
                                if ss[b].id@ == sid {
                                    lemma_source_id_unique(ss, b, si);
                                }
                            }
                        } else {
                            if fs[a].hash256@ == h {
                                if ss[a].id@ == sid {
                                    lemma_source_id_unique(ss, a, si);
                                }
                            }
                        }
                    }
                }
            }
        }
        Ok(())
    }

    /// Release a name's old binding and bind it to a fresh source
    /// holding the new content.
    #[verifier::rlimit(50)]
    fn put_rebind(
        &mut self,
        link: &Link,
        sidx: usize,
        source: &Source,
        input: &Vec<u8>,
        compressed: bool,
        hash256: &String,
    ) -> (r: Result<(), StoreError>)
        requires
            old(self).wf(),
            sidx < old(self).spec_sources().len(),
            old(self).spec_sources()[sidx as int].id@ == link.source_id@,
            *source == old(self).spec_sources()[sidx as int],
            hash256@ == blake3_hex_of(input@),
            has_link_id(old(self).spec_links(), link.id@),
            old(self).spec_links()[link_at(old(self).spec_links(), link.id@)].source_id@
                == link.source_id@,
        ensures
            final(self).wf(),
            r is Err ==> *final(self) == *old(self) && r == Err::<(), StoreError>(
                StoreError::InternalError,
            ),
            r is Ok ==> rebind_outcome(
                *old(self),
                *final(self),
                *link,
                sidx as int,
                blake3_hex_of(input@),
                compressed,
                input@,
            ),
    {
        let ghost o = *old(self);
        let ghost si = sidx as int;
        let ghost sid = link.source_id@;
        let ghost li = link_at(o.spec_links(), link.id@);
        let ghost s = o.spec_sources()[si];
        let new_size: u64 = input.len() as u64;
        proof {
            assert(0 <= li < o.spec_links().len() && o.spec_links()[li].id@ == link.id@);
            assert(has_source_id(o.spec_sources(), sid));
            let c = source_at(o.spec_sources(), sid);
            assert(0 <= c < o.spec_sources().len() && o.spec_sources()[c].id@ == sid);
            lemma_source_id_unique(o.spec_sources(), c, si);
            assert(s.count == count_refs(o.spec_links(), sid) && s.count >= 1);
        }
        let new_id = Self::file_name_gen();
        if self.dao.source_index(new_id.as_str()).is_some() {
            return Err(StoreError::InternalError);
        }
        let blob: Vec<u8> = if compressed {
            match self.bm.compress_all(input) {
                Ok(b) => b,
                Err(_) => {
                    proof {
                        assert(false);
                    }
                    return Err(StoreError::StoreFailed);
                },
            }
        } else {
            clone_bytes(input)
        };
        let old_count = source.count;
        if old_count == 1 {
            self.dao.delete_source_by_id(link.source_id.as_str());
            self.blobs.remove(sidx);
        } else {
            self.dao.update_source(
                link.source_id.as_str(),
                source.hash256.as_str(),
                source.compressed,
                source.size,
                old_count - 1,
            );
        }
        let ghost d1 = *self;
        proof {
            if old_count == 1 {
                o.spec_sources().remove_ensures(si);
                assert(d1.spec_sources() == o.spec_sources().remove(si));
            }
            assert forall|k: int| 0 <= k < d1.spec_sources().len() implies (#[trigger] d1
                .spec_sources()[k]).id@ != new_id@ by {
                if old_count == 1 {
                    if k < si {
                        assert(d1.spec_sources()[k] == o.spec_sources()[k]);
                    } else {
                        assert(d1.spec_sources()[k] == o.spec_sources()[k + 1]);
                    }
                }
            }
            assert(!has_source_id(d1.spec_sources(), new_id@));
        }
        let res = self.dao.insert_source(new_id.as_str(), hash256.as_str(), compressed, new_size);
        match res {
            Ok(()) => {},
            Err(_) => {
                proof {
                    assert(false);
                }
                return Err(StoreError::InternalError);
            },
        }
        let ghost d2 = *self;
        proof {
            assert(d2.spec_sources().take(d1.spec_sources().len() as int) == d1.spec_sources());
            assert(forall|j: int|
                0 <= j < d1.spec_sources().len() ==> #[trigger] d2.spec_sources()[j] == d1
                    .spec_sources()[j]);
        }
        self.dao.update_link_source_id(link.id.as_str(), new_id.as_str());
        self.blobs.push((new_id.clone(), blob));
        self.contents = Ghost(self.contents@.insert(new_id@, input@));
        proof {
            let f = *self;
            let ss = o.spec_sources();
            let fs = f.spec_sources();
            let ob = o.spec_blobs();
            let fb = f.spec_blobs();
            let fl = f.spec_links();
            let news = fs.last();
            // index maps
            assert(fs == d2.spec_sources());
            assert(fs.len() == d1.spec_sources().len() + 1);
            assert forall|i2: int| 0 <= i2 < fs.len() - 1 implies #[trigger] fs[i2] == (
            if old_count == 1 {
                ss[if i2 < si {
                    i2
                } else {
                    i2 + 1
                }]
            } else {
                if i2 == si {
                    d1.spec_sources()[si]
                } else {
                    ss[i2]
                }
            }) by {
                if old_count == 1 {
                    assert(fs[i2] == d1.spec_sources()[i2]);
                }
            }
            assert(news.id@ == new_id@ && news.count == 1 && news.hash256@ == hash256@
                && news.compressed == compressed && news.size == new_size);
            if old_count > 1 {
                assert(d1.spec_sources()[si].id == ss[si].id && d1.spec_sources()[si].count
                    == old_count - 1 && d1.spec_sources()[si].hash256@ == ss[si].hash256@
                    && d1.spec_sources()[si].compressed == ss[si].compressed
                    && d1.spec_sources()[si].size == ss[si].size && d1.spec_sources()[si].create_at
                    == ss[si].create_at);
            }
            // links: rewritten at li
            assert(has_link_id(o.spec_links(), link.id@));
            assert(fl.len() == o.spec_links().len());
            assert(fl[li].source_id@ == new_id@);
            assert(fl =~= o.spec_links().update(li, fl[li]));
            assert forall|k: int| 0 <= k < o.spec_links().len() implies (
            #[trigger] o.spec_links()[k]).source_id@ != new_id@ by {
                assert(has_source_id(ss, o.spec_links()[k].source_id@));
                let j = choose|j: int|
                    0 <= j < ss.len() && ss[j].id@ == o.spec_links()[k].source_id@;
                assert(ss[j].id@ != new_id@);
            }
            lemma_count_refs_zero(o.spec_links(), new_id@);
            lemma_count_refs_update(o.spec_links(), new_id@, li, fl[li]);
            assert(count_refs(fl, new_id@) == 1);
            lemma_count_refs_update(o.spec_links(), sid, li, fl[li]);
            assert(count_refs(fl, sid) + 1 == count_refs(o.spec_links(), sid));
            if old_count == 1 {
                assert forall|k: int| 0 <= k < fl.len() && k != li implies (
                #[trigger] fl[k]).source_id@ != sid by {
                    if fl[k].source_id@ == sid {
                        lemma_count_refs_two(o.spec_links(), sid, k, li);
                    }
                }
            }
            // counts
            assert forall|i2: int| 0 <= i2 < fs.len() implies (#[trigger] fs[i2]).count
                == count_refs(fl, fs[i2].id@) && fs[i2].count >= 1 by {
                if i2 == fs.len() - 1 {
                } else {
                    let oi = if old_count == 1 {
                        if i2 < si {
                            i2
                        } else {
                            i2 + 1
                        }
                    } else {
                        i2
                    };
                    assert(ss[oi].count == count_refs(o.spec_links(), ss[oi].id@) && ss[oi].count
                        >= 1);
                    lemma_count_refs_update(o.spec_links(), ss[oi].id@, li, fl[li]);
                    if oi == si {
                        assert(old_count > 1);
                        assert(fs[i2].count == old_count - 1);
                        assert(count_refs(fl, sid) == old_count - 1);
                    } else {
                        if ss[oi].id@ == sid {
                            lemma_source_id_unique(ss, oi, si);
                        }
                        assert(ss[oi].id@ != new_id@);
                        assert(count_refs(fl, ss[oi].id@) == count_refs(
                            o.spec_links(),
                            ss[oi].id@,
                        ));
                    }
                }
            }
            // resolve
            assert forall|i2: int| 0 <= i2 < fl.len() implies has_source_id(
                fs,
                #[trigger] fl[i2].source_id@,
            ) by {
                if i2 == li {
                    assert(fs[fs.len() - 1].id@ == new_id@);
                } else {
                    assert(fl[i2] == o.spec_links()[i2]);
                    assert(has_source_id(ss, o.spec_links()[i2].source_id@));
                    let j = choose|j: int|
                        0 <= j < ss.len() && ss[j].id@ == o.spec_links()[i2].source_id@;
                    if old_count == 1 {
                        assert(fl[i2].source_id@ != sid);
                        if j == si {
                            assert(ss[j].id@ == sid);
                        }
                        if j < si {
                            assert(fs[j].id@ == ss[j].id@);
                        } else {
                            assert(fs[j - 1].id@ == ss[j].id@);
                        }
                    } else {
                        assert(fs[j].id@ == ss[j].id@);
                    }
                }
            }
            // blobs
            if old_count == 1 {
                ob.remove_ensures(si);
                assert(forall|j: int|
                    0 <= j < fb.len() - 1 ==> #[trigger] fb[j] == ob[if j < si {
                        j
                    } else {
                        j + 1
                    }]);
            } else {
                assert(forall|j: int| 0 <= j < fb.len() - 1 ==> #[trigger] fb[j] == ob[j]);
            }
            assert forall|i2: int| 0 <= i2 < fs.len() implies #[trigger] blob_ok(
                fs,
                fb,
                f.spec_contents(),
                i2,
            ) by {
                if i2 == fs.len() - 1 {
                    assert(fb[i2].0@ == new_id@ && fb[i2].1@ == blob@);
                    assert(f.spec_contents()[new_id@] == input@);
                } else {
                    let oi = if old_count == 1 {
                        if i2 < si {
                            i2
                        } else {
                            i2 + 1
                        }
                    } else {
                        i2
                    };
                    assert(blob_ok(ss, ob, o.spec_contents(), oi));
                    assert(fb[i2] == ob[oi]);
                    assert(ss[oi].id@ != new_id@);
                    assert(f.spec_contents()[ss[oi].id@] == o.spec_contents()[ss[oi].id@]);
                }
            }
            // outcome
            assert(rebind_outcome(o, f, *link, si, blake3_hex_of(input@), compressed, input@))
                by {
                assert(f.spec_contents() =~= o.spec_contents().insert(new_id@, input@));
                if old_count == 1 {
                    assert(fs.drop_last() =~= ss.remove(si));
                }
                let h = blake3_hex_of(input@);
                if distinct_hashes(ss) && !has_other_source_hash(ss, sid, h) && (s.count == 1
                    || s.hash256@ != h) {
                    assert forall|a: int, b: int| 0 <= a < b < fs.len() implies fs[a].hash256@
                        != fs[b].hash256@ by {
                        let oa = if old_count == 1 {
                            if a < si {
                                a
                            } else {
                                a + 1
                            }
                        } else {
                            a
                        };
                        assert(fs[a].hash256@ == ss[oa].hash256@);
                        if b == fs.len() - 1 {
                            if fs[a].hash256@ == h {
                                if old_count == 1 {
                                    if ss[oa].id@ == sid {
                                        lemma_source_id_unique(ss, oa, si);
                                    }
                                    assert(has_other_source_hash(ss, sid, h));
                                } else {
                                    if oa != si {
                                        if ss[oa].id@ == sid {
                                            lemma_source_id_unique(ss, oa, si);
                                        }
                                        assert(has_other_source_hash(ss, sid, h));
                                    }
                                }
                            }
                        } else {
                            let obx = if old_count == 1 {
                                if b < si {
                                    b
                                } else {
                                    b + 1
                                }
                            } else {
                                b
                            };
                            assert(fs[b].hash256@ == ss[obx].hash256@);
                            assert(oa < obx);
                            assert(ss[oa].hash256@ != ss[obx].hash256@);
                        }
                    }
                }
            }
        }
        Ok(())
    }

    /// Add one more name for content the store already holds; `hi` is
    /// the position of the first source carrying the content's hash.
    fn put_dedup(
        &mut self,
        file_name: &str,
        input: &Vec<u8>,
        s: &Source,
        hash256: &String,
        hi: Ghost<int>,
    ) -> (r: Result<(), StoreError>)
        requires
            old(self).wf(),
            hash256@ == blake3_hex_of(input@),
            s.hash256@ == hash256@,
            s.count < u64::MAX,
            0 <= hi@ < old(self).spec_sources().len(),
            old(self).spec_sources()[hi@] == *s,
            forall|k: int| 0 <= k < hi@ ==> old(self).spec_sources()[k].hash256@ != hash256@,
        ensures
            final(self).wf(),
            r is Err ==> *final(self) == *old(self) && r == Err::<(), StoreError>(
                StoreError::InternalError,
            ),
            r is Ok ==> dedup_outcome(*old(self), *final(self), file_name@, blake3_hex_of(input@)),
    {
        let ghost o = *old(self);
        let ghost hi = hi@;
        proof {
            assert(o.spec_sources()[hi].count == count_refs(
                o.spec_links(),
                o.spec_sources()[hi].id@,
            ) && o.spec_sources()[hi].count >= 1);
        }
        let ext = ext_of_exec(file_name);
        match self.dao.insert_link(file_name, ext.as_str(), s.id.as_str()) {
            Ok(()) => {},
            Err(_) => {
                return Err(StoreError::InternalError);
            },
        }
        self.dao.update_source(s.id.as_str(), s.hash256.as_str(), s.compressed, s.size, s.count + 1);
        proof {
            let f = *self;
            let ss = o.spec_sources();
            assert(has_source_id(ss, s.id@));
            let ui = source_at(ss, s.id@);
            assert(0 <= ui < ss.len() && ss[ui].id@ == s.id@);
            lemma_source_id_unique(ss, ui, hi);
            lemma_dedup_restore(o, f, file_name@, blake3_hex_of(input@), hi);
        }
        Ok(())
    }

    /// Store novel content under a fresh name, source and blob.
    #[verifier::rlimit(50)]
    fn put_fresh(&mut self, file_name: &str, input: &Vec<u8>, compressed: bool, hash256: &String)
        -> (r: Result<(), StoreError>)
        requires
            old(self).wf(),
            hash256@ == blake3_hex_of(input@),
            !has_source_hash(old(self).spec_sources(), hash256@),
        ensures
            final(self).wf(),
            r is Err ==> *final(self) == *old(self) && r == Err::<(), StoreError>(
                StoreError::InternalError,
            ),
            r is Ok ==> fresh_outcome(
                *old(self),
                *final(self),
                file_name@,
                blake3_hex_of(input@),
                compressed,
                input@,
            ),
    {
        let ghost o = *old(self);
        let new_size: u64 = input.len() as u64;
        let new_id = Self::file_name_gen();
        if self.dao.source_index(new_id.as_str()).is_some() {
            return Err(StoreError::InternalError);
        }
        let blob: Vec<u8> = if compressed {
            match self.bm.compress_all(input) {
                Ok(b) => b,
                Err(_) => {
                    proof {
                        assert(false);
                    }
                    return Err(StoreError::StoreFailed);
                },
            }
        } else {
            clone_bytes(input)
        };
        let ext = ext_of_exec(file_name);
        match self.dao.insert_link(file_name, ext.as_str(), new_id.as_str()) {
            Ok(()) => {},
            Err(_) => {
                return Err(StoreError::InternalError);
            },
        }
        let res = self.dao.insert_source(new_id.as_str(), hash256.as_str(), compressed, new_size);
        match res {
            Ok(()) => {},
            Err(_) => {
                proof {
                    assert(false);
                }
                return Err(StoreError::InternalError);
            },
        }
        self.blobs.push((new_id.clone(), blob));
        self.contents = Ghost(self.contents@.insert(new_id@, input@));
        proof {
            let f = *self;
            let ss = o.spec_sources();
            let fs = f.spec_sources();
            let fl = f.spec_links();
            let fb = f.spec_blobs();
            assert(fl.drop_last() =~= o.spec_links());
            assert(fs.drop_last() =~= ss);
            assert(fs.take(ss.len() as int) =~= ss);
            assert(fl.take(o.spec_links().len() as int) =~= o.spec_links());
            assert(fs.last().id@ == new_id@);
            assert forall|k: int| 0 <= k < o.spec_links().len() implies (
            #[trigger] o.spec_links()[k]).source_id@ != new_id@ by {
                assert(has_source_id(ss, o.spec_links()[k].source_id@));
                let j = choose|j: int|
                    0 <= j < ss.len() && ss[j].id@ == o.spec_links()[k].source_id@;
                assert(ss[j].id@ != new_id@);
            }
            lemma_count_refs_zero(o.spec_links(), new_id@);
            assert(count_refs(fl, new_id@) == 1);
            assert forall|i2: int| 0 <= i2 < fs.len() implies (#[trigger] fs[i2]).count
                == count_refs(fl, fs[i2].id@) && fs[i2].count >= 1 by {
                if i2 == fs.len() - 1 {
                } else {
                    assert(fs[i2] == ss[i2]);
                    assert(ss[i2].count == count_refs(o.spec_links(), ss[i2].id@) && ss[i2].count
                        >= 1);
                    assert(ss[i2].id@ != new_id@);
                    assert(count_refs(fl, ss[i2].id@) == count_refs(o.spec_links(), ss[i2].id@));
                }
            }
            assert forall|i2: int| 0 <= i2 < fl.len() implies has_source_id(
                fs,
                #[trigger] fl[i2].source_id@,
            ) by {
                if i2 == fl.len() - 1 {
                    assert(fs[fs.len() - 1].id@ == new_id@);
                } else {
                    assert(fl[i2] == o.spec_links()[i2]);
                    assert(has_source_id(ss, o.spec_links()[i2].source_id@));
                    let j = choose|j: int|
                        0 <= j < ss.len() && ss[j].id@ == o.spec_links()[i2].source_id@;
                    assert(fs[j].id@ == ss[j].id@);
                }
            }
            assert forall|i2: int| 0 <= i2 < fs.len() implies #[trigger] blob_ok(
                fs,
                fb,
                f.spec_contents(),
                i2,
            ) by {
                if i2 == fs.len() - 1 {
                    assert(fb[i2].0@ == new_id@ && fb[i2].1@ == blob@);
                    assert(f.spec_contents()[new_id@] == input@);
                } else {
                    assert(blob_ok(ss, o.spec_blobs(), o.spec_contents(), i2));
                    assert(fb[i2] == o.spec_blobs()[i2]);
                    assert(ss[i2].id@ != new_id@);
                    assert(f.spec_contents()[ss[i2].id@] == o.spec_contents()[ss[i2].id@]);
                }
            }
            assert(fresh_outcome(o, f, file_name@, blake3_hex_of(input@), compressed, input@))
                by {
                assert(f.spec_contents() =~= o.spec_contents().insert(new_id@, input@));
                if distinct_hashes(ss) {
                    assert forall|a: int, b: int| 0 <= a < b < fs.len() implies fs[a].hash256@
                        != fs[b].hash256@ by {
                        if b == fs.len() - 1 {
                            assert(fs[a].hash256@ == ss[a].hash256@);
                            assert(!has_source_hash(ss, blake3_hex_of(input@)));
                        } else {
                            assert(fs[a].hash256@ == ss[a].hash256@ && fs[b].hash256@
                                == ss[b].hash256@);
                        }
                    }
                }
            }
        }
        Ok(())
    }

    /// Release one reference to a source: persist the decremented
    /// count while references remain, else delete the source row and
    /// its blob.
    fn release_source(&mut self, link: &Link, sidx: usize, source: &Source, source_count: u64)
        requires
            old(self).dao_wf(),
            old(self).codec_wf(),
            old(self).spec_blobs().len() == old(self).spec_sources().len(),
            sidx < old(self).spec_sources().len(),
            old(self).spec_sources()[sidx as int].id@ == link.source_id@,
            source.hash256@ == old(self).spec_sources()[sidx as int].hash256@,
            source.compressed == old(self).spec_sources()[sidx as int].compressed,
            source.size == old(self).spec_sources()[sidx as int].size,
        ensures
            final(self).dao_wf(),
            final(self).codec_wf(),
            final(self).spec_blobs().len() == final(self).spec_sources().len(),
            final(self).spec_links() == old(self).spec_links(),
            final(self).spec_contents() == old(self).spec_contents(),
            source_count == 0 ==> final(self).spec_sources() == old(self).spec_sources().remove(
                sidx as int,
            ) && final(self).spec_blobs() == old(self).spec_blobs().remove(sidx as int),
            source_count > 0 ==> {
                &&& final(self).spec_sources().len() == old(self).spec_sources().len()
                &&& final(self).spec_blobs() == old(self).spec_blobs()
                &&& (forall|j: int|
                    0 <= j < old(self).spec_sources().len() && j != sidx as int
                        ==> #[trigger] final(self).spec_sources()[j] == old(self).spec_sources()[j])
                &&& final(self).spec_sources()[sidx as int].id == old(self).spec_sources()[sidx as int].id
                &&& final(self).spec_sources()[sidx as int].hash256@ == old(self).spec_sources()[sidx as int].hash256@
                &&& final(self).spec_sources()[sidx as int].compressed == old(self).spec_sources()[sidx as int].compressed
                &&& final(self).spec_sources()[sidx as int].size == old(self).spec_sources()[sidx as int].size
                &&& final(self).spec_sources()[sidx as int].count == source_count
                &&& final(self).spec_sources()[sidx as int].create_at == old(self).spec_sources()[sidx as int].create_at
            },
    {
        let ghost o = *old(self);
        proof {
            assert(o.spec_sources()[sidx as int].id@ == link.source_id@);
            assert(has_source_id(o.spec_sources(), link.source_id@));
            let c = source_at(o.spec_sources(), link.source_id@);
            assert(0 <= c < o.spec_sources().len() && o.spec_sources()[c].id@ == link.source_id@);
            lemma_source_id_unique(o.spec_sources(), c, sidx as int);
        }
        if source_count > 0 {
            self.dao.update_source(
                link.source_id.as_str(),
                source.hash256.as_str(),
                source.compressed,
                source.size,
                source_count,
            );
        } else {
            self.dao.delete_source_by_id(link.source_id.as_str());
            self.blobs.remove(sidx);
        }
    }

    /// Delete every link a pattern selects, releasing each link's
    /// source as it goes: a source's row and blob disappear exactly
    /// when its last name does.
    #[verifier::rlimit(100)]
    pub fn delete(&mut self, pattern: &str, use_regx: bool) -> (r: Result<(), StoreError>)
        requires
            old(self).wf(),
        ensures
            final(self).wf(),
            pattern@.len() == 0 ==> r == Err::<(), StoreError>(StoreError::InvalidName) && *final(self)
                == *old(self),
            pattern@.len() > 0 ==> r == Ok::<(), StoreError>(()) && delete_outcome(
                *old(self),
                *final(self),
                delete_pred(pattern@, use_regx),
            ),
    {
        let ghost o = *old(self);
        if pattern.is_empty() {
            return Err(StoreError::InvalidName);
        }
        let matched = self.list(pattern, 0, false, use_regx);
        let ghost sel = delete_pred(pattern@, use_regx);
        proof {
            if (pattern@.len() == 0 || pattern@ == seq!['*']) && use_regx {
                lemma_filter_keep_all(o.spec_links(), |l: Link| true);
            }
            assert(matched@ == o.spec_links().filter(sel));
            lemma_delete_init(o.spec_links(), matched@, sel);
            lemma_sources_preserved_refl(o.spec_sources());
        }
        let m = matched.len();
        let mut k: usize = 0;
        while k < m
            invariant
                k <= m,
                m == matched@.len(),
                o.wf(),
                matched@ == o.spec_links().filter(sel),
                distinct_link_ids(matched@),
                self.wf(),
                self.spec_links() == o.spec_links().filter(
                    |l: Link| !sel(l) || has_link_id(matched@.skip(k as int), l.id@),
                ),
                self.spec_contents() == o.spec_contents(),
                sources_preserved(o.spec_sources(), self.spec_sources()),
                distinct_hashes(o.spec_sources()) ==> distinct_hashes(self.spec_sources()),
            decreases m - k,
        {
            let ghost c = *self;
            let ghost pk = |l: Link| !sel(l) || has_link_id(matched@.skip(k as int), l.id@);
            let l = matched[k].clone();
            proof {
                // the current table still holds this link
                lemma_filter_origin(o.spec_links(), sel, k as int);
                let oj = choose|oj: int|
                    0 <= oj < o.spec_links().len() && o.spec_links()[oj] == matched@[k as int];
                assert(sel(o.spec_links()[oj]));
                assert(matched@.skip(k as int)[0] == matched@[k as int]);
                assert(has_link_id(matched@.skip(k as int), l.id@));
                assert(pk(o.spec_links()[oj]));
                o.spec_links().lemma_filter_contains(pk, oj);
                let w = choose|w: int|
                    0 <= w < c.spec_links().len() && #[trigger] c.spec_links()[w] == l;
                assert(c.spec_links()[w].id@ == l.id@);
                assert(has_link_id(c.spec_links(), l.id@));
                assert(has_source_id(c.spec_sources(), c.spec_links()[w].source_id@));
            }
            let sidx = match self.dao.source_index(l.source_id.as_str()) {
                Some(i) => i,
                None => {
                    proof {
                        assert(false);
                    }
                    return Err(StoreError::NotFound);
                },
            };
            let source = self.dao.source_ref(sidx).clone();
            proof {
                assert(c.spec_sources()[sidx as int].count == count_refs(
                    c.spec_links(),
                    c.spec_sources()[sidx as int].id@,
                ) && c.spec_sources()[sidx as int].count >= 1);
            }
            let ghost li = link_at(c.spec_links(), l.id@);
            proof {
                assert(0 <= li < c.spec_links().len() && c.spec_links()[li].id@ == l.id@);
                let w = choose|w: int|
                    0 <= w < c.spec_links().len() && #[trigger] c.spec_links()[w] == l;
                lemma_link_id_unique(c.spec_links(), li, w);
                assert(c.spec_links()[li] == l);
            }
            self.dao.delete_link_by_id(l.id.as_str());
            let source_count = source.count - 1;
            self.release_source(&l, sidx, &source, source_count);
            proof {
                let f = *self;
                lemma_delete_step_links(
                    o.spec_links(),
                    matched@,
                    sel,
                    k as int,
                    c.spec_links(),
                    li,
                );
                lemma_delete_iter_restore(c, f, l, sidx as int);
                lemma_sources_preserved_trans(
                    o.spec_sources(),
                    c.spec_sources(),
                    f.spec_sources(),
                );
            }
            k += 1;
        }
        proof {
            let f = *self;
            assert(matched@.skip(m as int).len() == 0);
            lemma_delete_finish(o.spec_links(), matched@, sel);
            assert forall|j: int| 0 <= j < o.spec_sources().len() implies (has_source_id(
                f.spec_sources(),
                (#[trigger] o.spec_sources()[j]).id@,
            ) <==> count_refs(f.spec_links(), o.spec_sources()[j].id@) > 0) by {
                lemma_live_iff_referenced(&f, o.spec_sources()[j].id@);
            }
        }
        Ok(())
    }

    /// Store a named object.
    ///
    /// With an existing link for the name: `cover` overwrites the
    /// linked source in place, even when other names share it;
    /// without `cover`, identical content is a no-op, and changed
    /// content releases the old binding and binds the name to a fresh
    /// source. With no link for the name: content whose hash is
    /// already stored gains one more link and one more reference
    /// without writing a blob; novel content gains a fresh link,
    /// source and blob.
    pub fn put_binary_data(
        &mut self,
        file_name: &str,
        input: &Vec<u8>,
        cover: bool,
        compressed: bool,
    ) -> (r: Result<(), StoreError>)
        requires
            old(self).wf(),
        ensures
            final(self).wf(),
            r is Err ==> *final(self) == *old(self),
            file_name@.len() > 0 && r is Ok ==> put_ok_outcome(
                *old(self),
                *final(self),
                file_name@,
                blake3_hex_of(input@),
                cover,
                compressed,
                input@,
            ),
            ({
                let ms = old(self).spec_links().filter(
                    |l: Link| matches_name(l, file_name@, false),
                );
                let h = blake3_hex_of(input@);
                &&& (file_name@.len() == 0 ==> r == Err::<(), StoreError>(StoreError::InvalidName))
                &&& (file_name@.len() > 0 && ms.len() > 0 ==> {
                    let lk = ms[0];
                    let si = source_at(old(self).spec_sources(), lk.source_id@);
                    let s = old(self).spec_sources()[si];
                    if cover {
                        &&& r is Ok
                        &&& cover_outcome(
                            *old(self),
                            *final(self),
                            si,
                            h,
                            compressed,
                            input@,
                        )
                    } else if h == s.hash256@ && s.compressed == compressed {
                        r == Ok::<(), StoreError>(()) && *final(self) == *old(self)
                    } else {
                        &&& (r is Err ==> r == Err::<(), StoreError>(StoreError::InternalError))
                        &&& (r is Ok ==> rebind_outcome(
                            *old(self),
                            *final(self),
                            lk,
                            si,
                            h,
                            compressed,
                            input@,
                        ))
                    }
                })
                &&& (file_name@.len() > 0 && ms.len() == 0 ==> {
                    if has_source_hash(old(self).spec_sources(), h) {
                        &&& (r is Err ==> r == Err::<(), StoreError>(StoreError::InternalError))
                        &&& (r is Ok ==> dedup_outcome(*old(self), *final(self), file_name@, h))
                    } else {
                        &&& (r is Err ==> r == Err::<(), StoreError>(StoreError::InternalError))
                        &&& (r is Ok ==> fresh_outcome(
                            *old(self),
                            *final(self),
                            file_name@,
                            h,
                            compressed,
                            input@,
                        ))
                    }
                })
            }),
    {
        let ghost o = *old(self);
        let ghost pred = |l: Link| matches_name(l, file_name@, false);
        if file_name.is_empty() {
            return Err(StoreError::InvalidName);
        }
        let hash256 = get_hash256_from_binary(input);
        let links = self.dao.get_links_by_name(file_name, false);
        let ghost ms = o.spec_links().filter(pred);
        if links.len() > 0 {
            proof {
                lemma_filter_origin(o.spec_links(), pred, 0);
            }
            let link = links[0].clone();
            let ghost lk = ms[0];
            let ghost lj = choose|j: int|
                0 <= j < o.spec_links().len() && o.spec_links()[j] == ms[0];
            proof {
                assert(has_source_id(o.spec_sources(), o.spec_links()[lj].source_id@));
                assert(has_link_id(o.spec_links(), lk.id@));
                let c = link_at(o.spec_links(), lk.id@);
                assert(0 <= c < o.spec_links().len() && o.spec_links()[c].id@ == lk.id@);
                lemma_link_id_unique(o.spec_links(), c, lj);
            }
            let sidx = match self.dao.source_index(link.source_id.as_str()) {
                Some(i) => i,
                None => {
                    proof {
                        assert(false);
                    }
                    return Err(StoreError::NotFound);
                },
            };
            let source = self.dao.source_ref(sidx).clone();
            let ghost si = source_at(o.spec_sources(), lk.source_id@);
            proof {
                assert(0 <= si < o.spec_sources().len() && o.spec_sources()[si].id@
                    == lk.source_id@);
                lemma_source_id_unique(o.spec_sources(), si, sidx as int);
            }
            if cover {
                self.put_cover(&link, sidx, &source, input, compressed, &hash256)
            } else {
                let same = str_eq(hash256.as_str(), source.hash256.as_str());
                if same && source.compressed == compressed {
                    return Ok(());
                }
                self.put_rebind(&link, sidx, &source, input, compressed, &hash256)
            }
        } else {
            match self.dao.get_source_by_hash256(hash256.as_str()) {
                Some(s) => {
                    let ghost hi = first_hash_at(o.spec_sources(), hash256@);
                    proof {
                        assert(o.spec_sources()[hi].count == count_refs(
                            o.spec_links(),
                            o.spec_sources()[hi].id@,
                        ) && o.spec_sources()[hi].count >= 1);
                    }
                    if s.count == u64::MAX {
                        return Err(StoreError::InternalError);
                    }
                    self.put_dedup(file_name, input, &s, &hash256, Ghost(hi))
                },
                None => self.put_fresh(file_name, input, compressed, &hash256),
            }
        }
    }
}

/// Reference-count correctness: in any reachable store state, every
/// live source's count equals the number of links whose source id is
/// its own, and every live source has at least one name.
pub proof fn lemma_source_count_matches_links(s: &StoreManager, i: int)
    requires
        s.wf(),
        0 <= i < s.spec_sources().len(),
    ensures
        s.spec_sources()[i].count == count_refs(s.spec_links(), s.spec_sources()[i].id@),
        s.spec_sources()[i].count >= 1,
{
}

/// Blob integrity: for every live source, the stored blob yields —
/// raw, or through the codec when the row says compressed — exactly
/// the content whose hash and size the catalogue records.
pub proof fn lemma_blob_integrity(s: &StoreManager, i: int)
    requires
        s.wf(),
        0 <= i < s.spec_sources().len(),
    ensures
        s.spec_contents().contains_key(s.spec_sources()[i].id@),
        s.spec_contents()[s.spec_sources()[i].id@].len() == s.spec_sources()[i].size,
        s.spec_sources()[i].hash256@ == blake3_hex_of(
            s.spec_contents()[s.spec_sources()[i].id@],
        ),
        s.spec_sources()[i].compressed ==> decode_spec(s.spec_blobs()[i].1@) == Some(
            s.spec_contents()[s.spec_sources()[i].id@],
        ),
        !s.spec_sources()[i].compressed ==> s.spec_blobs()[i].1@
            == s.spec_contents()[s.spec_sources()[i].id@],
{
    assert(blob_ok(s.spec_sources(), s.spec_blobs(), s.spec_contents(), i));
}

/// Content uniqueness: the empty store has pairwise distinct source
/// hashes, and the outcome clauses of `put_binary_data` and `delete`
/// state exactly when each operation keeps them so — always, except an
/// in-place overwrite or a re-bind whose new content already lives
/// under another source.
pub proof fn lemma_empty_store_hashes_distinct(s: &StoreManager)
    requires
        s.spec_sources().len() == 0,
    ensures
        distinct_hashes(s.spec_sources()),
{
}

} // verus!
