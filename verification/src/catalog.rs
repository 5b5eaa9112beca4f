//! The catalogue: the link and source tables behind the content store.
//!
//! A link is a named handle pointing at a source; a source is a
//! deduplicated content record. The catalogue keeps both tables with
//! unique identifiers and offers exact and wildcard lookup, insertion,
//! update and deletion, the way the store's serial writer uses them.

use vstd::prelude::*;

verus! {

/// The store's error taxonomy, ordered by visibility.
#[derive(Clone, Copy, Debug, PartialEq, Eq, Structural)]
pub enum StoreError {
    /// No link matches a lookup, or a referenced row is missing.
    NotFound,
    /// An empty effective name.
    InvalidName,
    /// A write-side failure from the codec or the catalogue.
    StoreFailed,
    /// Unreachable branches and identifier collisions.
    InternalError,
}

/// A named handle pointing at a source.
#[derive(Debug)]
pub struct Link {
    pub id: String,
    pub name: String,
    pub ext: String,
    pub source_id: String,
}

impl Clone for Link {
    fn clone(&self) -> (r: Self)
        ensures
            r == *self,
    {
        Link {
            id: self.id.clone(),
            name: self.name.clone(),
            ext: self.ext.clone(),
            source_id: self.source_id.clone(),
        }
    }
}

/// A deduplicated content record.
#[derive(Debug)]
pub struct Source {
    pub id: String,
    pub hash256: String,
    pub compressed: bool,
    pub size: u64,
    pub count: u64,
    pub create_at: String,
    pub update_at: String,
}

impl Clone for Source {
    fn clone(&self) -> (r: Self)
        ensures
            r == *self,
    {
        Source {
            id: self.id.clone(),
            hash256: self.hash256.clone(),
            compressed: self.compressed,
            size: self.size,
            count: self.count,
            create_at: self.create_at.clone(),
            update_at: self.update_at.clone(),
        }
    }
}

/// Character-for-character string equality.
pub fn str_eq(a: &str, b: &str) -> (r: bool)
    ensures
        r == (a@ == b@),
{
    let an = a.unicode_len();
    let bn = b.unicode_len();
    if an != bn {
        return false;
    }
    let mut i: usize = 0;
    while i < an
        invariant
            i <= an,
            an == a@.len(),
            an == b@.len(),
            forall|k: int| 0 <= k < i ==> a@[k] == b@[k],
        decreases an - i,
    {
        if a.get_char(i) != b.get_char(i) {
            return false;
        }
        i += 1;
    }
    proof {
        assert(a@ =~= b@);
    }
    true
}

/// The characters of a string, in order.
pub fn str_chars(s: &str) -> (r: Vec<char>)
    ensures
        r@ == s@,
{
    let n = s.unicode_len();
    let mut r: Vec<char> = Vec::new();
    let mut i: usize = 0;
    while i < n
        invariant
            i <= n,
            n == s@.len(),
            r@ == s@.take(i as int),
        decreases n - i,
    {
        let c = s.get_char(i);
        r.push(c);
        proof {
            assert(r@ =~= s@.take(i + 1 as int));
        }
        i += 1;
    }
    proof {
        assert(s@.take(n as int) =~= s@);
    }
    r
}

/// A scalar value folded to ASCII lowercase: `A`–`Z` shifted down to
/// `a`–`z`, everything else itself.
pub open spec fn fold_scalar(u: u32) -> u32 {
    if 65 <= u <= 90 {
        (u + 32) as u32
    } else {
        u
    }
}

/// Whether two characters are equal up to ASCII case, the equality
/// SQL's LIKE applies by default.
pub open spec fn eq_nocase(a: char, b: char) -> bool {
    fold_scalar(a as u32) == fold_scalar(b as u32)
}

/// Whether two characters are equal up to ASCII case.
pub fn eq_nocase_exec(a: char, b: char) -> (r: bool)
    ensures
        r == eq_nocase(a, b),
{
    let au = a as u32;
    let bu = b as u32;
    let af: u32 = if au >= 65 && au <= 90 {
        au + 32
    } else {
        au
    };
    let bf: u32 = if bu >= 65 && bu <= 90 {
        bu + 32
    } else {
        bu
    };
    af == bf
}

/// SQL-LIKE pattern matching: `%` matches any run of characters, `_`
/// any single character, anything else itself up to ASCII case — the
/// matcher is ASCII-case-insensitive, as SQL's LIKE is by default.
pub open spec fn like_match(pat: Seq<char>, text: Seq<char>) -> bool
    decreases pat.len(), text.len(),
{
    if pat.len() == 0 {
        text.len() == 0
    } else if pat[0] == '%' {
        like_match(pat.skip(1), text) || (text.len() > 0 && like_match(pat, text.skip(1)))
    } else if text.len() > 0 && (pat[0] == '_' || eq_nocase(pat[0], text[0])) {
        like_match(pat.skip(1), text.skip(1))
    } else {
        false
    }
}

/// The calling layer's wildcard `*` rewritten to SQL's `%`.
pub open spec fn star_to_percent(pat: Seq<char>) -> Seq<char> {
    pat.map_values(|c: char| if c == '*' { '%' } else { c })
}

/// Rewrite `*` to `%` in a pattern.
pub fn translate_wildcards(pat: &Vec<char>) -> (r: Vec<char>)
    ensures
        r@ == star_to_percent(pat@),
{
    let n = pat.len();
    let mut r: Vec<char> = Vec::new();
    let mut i: usize = 0;
    while i < n
        invariant
            i <= n,
            n == pat@.len(),
            r@ == star_to_percent(pat@).take(i as int),
        decreases n - i,
    {
        let c = pat[i];
        if c == '*' {
            r.push('%');
        } else {
            r.push(c);
        }
        proof {
            assert(r@ =~= star_to_percent(pat@).take(i + 1 as int));
        }
        i += 1;
    }
    proof {
        assert(star_to_percent(pat@).take(n as int) =~= star_to_percent(pat@));
    }
    r
}

fn like_rec(pat: &Vec<char>, text: &Vec<char>, pi: usize, ti: usize) -> (r: bool)
    requires
        pi <= pat@.len(),
        ti <= text@.len(),
    ensures
        r == like_match(pat@.skip(pi as int), text@.skip(ti as int)),
    decreases pat@.len() - pi, text@.len() - ti,
{
    let pn = pat.len();
    let tn = text.len();
    proof {
        assert(pat@.skip(pi as int).len() == pn - pi);
        assert(text@.skip(ti as int).len() == tn - ti);
        if pi < pn {
            assert(pat@.skip(pi as int)[0] == pat@[pi as int]);
            assert(pat@.skip(pi as int).skip(1) =~= pat@.skip(pi + 1));
        }
        if ti < tn {
            assert(text@.skip(ti as int)[0] == text@[ti as int]);
            assert(text@.skip(ti as int).skip(1) =~= text@.skip(ti + 1));
        }
    }
    if pi == pn {
        ti == tn
    } else {
        let pc = pat[pi];
        if pc == '%' {
            if like_rec(pat, text, pi + 1, ti) {
                true
            } else if ti < tn {
                like_rec(pat, text, pi, ti + 1)
            } else {
                false
            }
        } else if ti < tn {
            let tc = text[ti];
            if pc == '_' || eq_nocase_exec(pc, tc) {
                like_rec(pat, text, pi + 1, ti + 1)
            } else {
                false
            }
        } else {
            false
        }
    }
}

/// Whether a text matches a SQL-LIKE pattern.
pub fn like_match_exec(pat: &Vec<char>, text: &Vec<char>) -> (r: bool)
    ensures
        r == like_match(pat@, text@),
{
    proof {
        assert(pat@.skip(0) =~= pat@);
        assert(text@.skip(0) =~= text@);
    }
    like_rec(pat, text, 0, 0)
}

/// Whether a link is selected by a name query.
pub open spec fn matches_name(l: Link, name: Seq<char>, fuzzy: bool) -> bool {
    if fuzzy {
        like_match(name, l.name@)
    } else {
        l.name@ == name
    }
}

/// Whether some link in the table carries this link id.
pub open spec fn has_link_id(links: Seq<Link>, id: Seq<char>) -> bool {
    exists|i: int| 0 <= i < links.len() && links[i].id@ == id
}

/// Whether some source in the table carries this source id.
pub open spec fn has_source_id(sources: Seq<Source>, id: Seq<char>) -> bool {
    exists|i: int| 0 <= i < sources.len() && sources[i].id@ == id
}

/// Whether some source in the table carries this content hash.
pub open spec fn has_source_hash(sources: Seq<Source>, hash256: Seq<char>) -> bool {
    exists|i: int| 0 <= i < sources.len() && sources[i].hash256@ == hash256
}

/// The position of the source with this id.
pub open spec fn source_at(sources: Seq<Source>, id: Seq<char>) -> int {
    choose|i: int| 0 <= i < sources.len() && sources[i].id@ == id
}

/// The position of the link with this id.
pub open spec fn link_at(links: Seq<Link>, id: Seq<char>) -> int {
    choose|i: int| 0 <= i < links.len() && links[i].id@ == id
}

/// The position of the first source carrying this hash.
pub open spec fn first_hash_at(sources: Seq<Source>, hash256: Seq<char>) -> int {
    choose|i: int|
        0 <= i < sources.len() && sources[i].hash256@ == hash256 && (forall|k: int|
            0 <= k < i ==> sources[k].hash256@ != hash256)
}

/// In a table with unique source ids, equal ids mean equal positions.
pub proof fn lemma_source_id_unique(sources: Seq<Source>, i: int, j: int)
    requires
        distinct_source_ids(sources),
        0 <= i < sources.len(),
        0 <= j < sources.len(),
        sources[i].id@ == sources[j].id@,
    ensures
        i == j,
{
    if i < j {
        assert(sources[i].id@ != sources[j].id@);
    } else if j < i {
        assert(sources[j].id@ != sources[i].id@);
    }
}

/// In a table with unique link ids, equal ids mean equal positions.
pub proof fn lemma_link_id_unique(links: Seq<Link>, i: int, j: int)
    requires
        distinct_link_ids(links),
        0 <= i < links.len(),
        0 <= j < links.len(),
        links[i].id@ == links[j].id@,
    ensures
        i == j,
{
    if i < j {
        assert(links[i].id@ != links[j].id@);
    } else if j < i {
        assert(links[j].id@ != links[i].id@);
    }
}

/// Relies on uuid's `Uuid::new_v4` and its hyphenated `to_string`: a
/// fresh random identifier, 36 characters long.
#[verifier::external_body]
fn new_uuid_string() -> (r: String)
    ensures
        r@.len() == 36,
{
    uuid::Uuid::new_v4().to_string()
}

/// Relies on chrono's `Utc::now` and its `%Y-%m-%d %H:%M:%S` formatter;
/// nothing is promised of the clock's value.
#[verifier::external_body]
fn now_datetime_string() -> (r: String)
    ensures
        true,
{
    chrono::Utc::now().naive_local().format("%Y-%m-%d %H:%M:%S").to_string()
}

/// No two links share an id.
pub open spec fn distinct_link_ids(links: Seq<Link>) -> bool {
    forall|i: int, j: int| 0 <= i < j < links.len() ==> links[i].id@ != links[j].id@
}

/// No two sources share an id.
pub open spec fn distinct_source_ids(sources: Seq<Source>) -> bool {
    forall|i: int, j: int| 0 <= i < j < sources.len() ==> sources[i].id@ != sources[j].id@
}

/// The catalogue: durable, serial access to the link and source tables.
pub struct Dao {
    links: Vec<Link>,
    sources: Vec<Source>,
}

impl Dao {
    /// The link table, in insertion order.
    pub closed spec fn spec_links(&self) -> Seq<Link> {
        self.links@
    }

    /// The source table, in insertion order.
    pub closed spec fn spec_sources(&self) -> Seq<Source> {
        self.sources@
    }

    /// Both tables keyed by unique identifiers.
    pub open spec fn wf(&self) -> bool {
        distinct_link_ids(self.spec_links()) && distinct_source_ids(self.spec_sources())
    }

    /// An empty catalogue.
    pub fn new() -> (r: Dao)
        ensures
            r.wf(),
            r.spec_links().len() == 0,
            r.spec_sources().len() == 0,
    {
        Dao { links: Vec::new(), sources: Vec::new() }
    }

    /// Insert a link under a caller-chosen id; refused when the id is
    /// already taken.
    pub fn insert_link_with_id(
        &mut self,
        id: String,
        name: &str,
        ext: &str,
        source_id: &str,
    ) -> (r: Result<(), StoreError>)
        requires
            old(self).wf(),
        ensures
            final(self).wf(),
            final(self).spec_sources() == old(self).spec_sources(),
            r is Ok <==> !has_link_id(old(self).spec_links(), id@),
            r is Ok ==> {
                &&& final(self).spec_links().len() == old(self).spec_links().len() + 1
                &&& final(self).spec_links().take(old(self).spec_links().len() as int) == old(self).spec_links()
                &&& final(self).spec_links().last().id@ == id@
                &&& final(self).spec_links().last().name@ == name@
                &&& final(self).spec_links().last().ext@ == ext@
                &&& final(self).spec_links().last().source_id@ == source_id@
            },
            r matches Err(e) ==> e == StoreError::InternalError && *final(self) == *old(self),
    {
        let n = self.links.len();
        let mut i: usize = 0;
        while i < n
            invariant
                i <= n,
                n == self.spec_links().len(),
                *self == *old(self),
                old(self).wf(),
                forall|k: int| 0 <= k < i ==> self.spec_links()[k].id@ != id@,
            decreases n - i,
        {
            if str_eq(self.links[i].id.as_str(), id.as_str()) {
                proof {
                    assert(old(self).spec_links()[i as int].id@ == id@);
                }
                return Err(StoreError::InternalError);
            }
            i += 1;
        }
        let link = Link {
            id,
            name: name.to_owned(),
            ext: ext.to_owned(),
            source_id: source_id.to_owned(),
        };
        self.links.push(link);
        proof {
            let os = old(self).spec_links();
            let ls = self.spec_links();
            let on = os.len() as int;
            assert(ls.take(on) =~= os);
            assert forall|i2: int, j2: int| 0 <= i2 < j2 < ls.len() implies ls[i2].id@
                != ls[j2].id@ by {
                if j2 < on {
                    assert(ls[i2] == os[i2] && ls[j2] == os[j2]);
                } else {
                    assert(ls[i2] == os[i2] && ls[j2].id@ == id@);
                }
            }
        }
        Ok(())
    }

    /// Insert a link under a fresh random id. Relies on the id draw
    /// alone for success: a collision leaves the catalogue unchanged.
    pub fn insert_link(&mut self, name: &str, ext: &str, source_id: &str) -> (r: Result<
        (),
        StoreError,
    >)
        requires
            old(self).wf(),
        ensures
            final(self).wf(),
            final(self).spec_sources() == old(self).spec_sources(),
            r is Ok ==> {
                &&& final(self).spec_links().len() == old(self).spec_links().len() + 1
                &&& final(self).spec_links().take(old(self).spec_links().len() as int) == old(self).spec_links()
                &&& final(self).spec_links().last().name@ == name@
                &&& final(self).spec_links().last().ext@ == ext@
                &&& final(self).spec_links().last().source_id@ == source_id@
            },
            r matches Err(e) ==> e == StoreError::InternalError && *final(self) == *old(self),
    {
        let id = new_uuid_string();
        self.insert_link_with_id(id, name, ext, source_id)
    }

    /// All links selected by a name query, in table order; `fuzzy`
    /// interprets the name as a SQL-LIKE pattern.
    pub fn get_links_by_name(&self, name: &str, fuzzy: bool) -> (r: Vec<Link>)
        ensures
            r@ == self.spec_links().filter(|l: Link| matches_name(l, name@, fuzzy)),
    {
        let ghost pred = |l: Link| matches_name(l, name@, fuzzy);
        let pat = str_chars(name);
        let n = self.links.len();
        let mut r: Vec<Link> = Vec::new();
        let mut i: usize = 0;
        proof {
            reveal_with_fuel(Seq::<Link>::filter, 2);
            assert(self.spec_links().take(0).filter(pred) =~= Seq::<Link>::empty());
        }
        while i < n
            invariant
                i <= n,
                n == self.spec_links().len(),
                pat@ == name@,
                pred == (|l: Link| matches_name(l, name@, fuzzy)),
                r@ == self.spec_links().take(i as int).filter(pred),
            decreases n - i,
        {
            let l = &self.links[i];
            let selected = if fuzzy {
                let text = str_chars(l.name.as_str());
                like_match_exec(&pat, &text)
            } else {
                str_eq(l.name.as_str(), name)
            };
            if selected {
                r.push(l.clone());
            }
            proof {
                reveal_with_fuel(Seq::<Link>::filter, 2);
                let s = self.spec_links();
                assert(s.take(i + 1 as int).drop_last() =~= s.take(i as int));
                assert(s.take(i + 1 as int).last() == s[i as int]);
                assert(s.take(i + 1 as int).filter(pred) == if pred(s[i as int]) {
                    s.take(i as int).filter(pred).push(s[i as int])
                } else {
                    s.take(i as int).filter(pred)
                });
            }
            i += 1;
        }
        proof {
            assert(self.spec_links().take(n as int) =~= self.spec_links());
        }
        r
    }

    /// All links with exactly this extension, in table order.
    pub fn get_links_by_ext(&self, ext: &str) -> (r: Vec<Link>)
        ensures
            r@ == self.spec_links().filter(|l: Link| l.ext@ == ext@),
    {
        let ghost pred = |l: Link| l.ext@ == ext@;
        let n = self.links.len();
        let mut r: Vec<Link> = Vec::new();
        let mut i: usize = 0;
        proof {
            reveal_with_fuel(Seq::<Link>::filter, 2);
            assert(self.spec_links().take(0).filter(pred) =~= Seq::<Link>::empty());
        }
        while i < n
            invariant
                i <= n,
                n == self.spec_links().len(),
                pred == (|l: Link| l.ext@ == ext@),
                r@ == self.spec_links().take(i as int).filter(pred),
            decreases n - i,
        {
            let l = &self.links[i];
            if str_eq(l.ext.as_str(), ext) {
                r.push(l.clone());
            }
            proof {
                reveal_with_fuel(Seq::<Link>::filter, 2);
                let s = self.spec_links();
                assert(s.take(i + 1 as int).drop_last() =~= s.take(i as int));
                assert(s.take(i + 1 as int).last() == s[i as int]);
                assert(s.take(i + 1 as int).filter(pred) == if pred(s[i as int]) {
                    s.take(i as int).filter(pred).push(s[i as int])
                } else {
                    s.take(i as int).filter(pred)
                });
            }
            i += 1;
        }
        proof {
            assert(self.spec_links().take(n as int) =~= self.spec_links());
        }
        r
    }

    /// The first `n` links in table order, or all of them when `n` is 0.
    pub fn get_n_links(&self, n: u64) -> (r: Vec<Link>)
        ensures
            n == 0 || n >= self.spec_links().len() ==> r@ == self.spec_links(),
            0 < n < self.spec_links().len() ==> r@ == self.spec_links().take(n as int),
    {
        let total = self.links.len();
        let bound = if n == 0 || n > total as u64 {
            total
        } else {
            n as usize
        };
        let mut r: Vec<Link> = Vec::new();
        let mut i: usize = 0;
        while i < bound
            invariant
                i <= bound <= total,
                total == self.spec_links().len(),
                r@ == self.spec_links().take(i as int),
            decreases bound - i,
        {
            r.push(self.links[i].clone());
            proof {
                assert(r@ =~= self.spec_links().take(i + 1 as int));
            }
            i += 1;
        }
        proof {
            if bound == total {
                assert(self.spec_links().take(total as int) =~= self.spec_links());
            }
        }
        r
    }

    /// Delete the link with this id, if any.
    pub fn delete_link_by_id(&mut self, id: &str)
        requires
            old(self).wf(),
        ensures
            final(self).wf(),
            final(self).spec_sources() == old(self).spec_sources(),
            !has_link_id(old(self).spec_links(), id@) ==> final(self).spec_links() == old(self).spec_links(),
            has_link_id(old(self).spec_links(), id@) ==> ({
                let i = link_at(old(self).spec_links(), id@);
                &&& 0 <= i < old(self).spec_links().len()
                &&& old(self).spec_links()[i].id@ == id@
                &&& final(self).spec_links() == old(self).spec_links().remove(i)
            }),
    {
        let n = self.links.len();
        let mut i: usize = 0;
        while i < n
            invariant
                i <= n,
                n == self.spec_links().len(),
                *self == *old(self),
                old(self).wf(),
                forall|k: int| 0 <= k < i ==> self.spec_links()[k].id@ != id@,
            decreases n - i,
        {
            if str_eq(self.links[i].id.as_str(), id) {
                let ghost olds = self.spec_links();
                self.links.remove(i);
                proof {
                    assert(olds[i as int].id@ == id@);
                    assert(has_link_id(olds, id@));
                    let c = link_at(olds, id@);
                    assert(0 <= c < olds.len() && olds[c].id@ == id@);
                    lemma_link_id_unique(olds, c, i as int);
                    olds.remove_ensures(i as int);
                    let t = self.spec_links();
                    assert forall|i2: int, j2: int| 0 <= i2 < j2 < t.len() implies t[i2].id@
                        != t[j2].id@ by {
                        assert(t[i2] == if i2 < i {
                            olds[i2]
                        } else {
                            olds[i2 + 1]
                        });
                        assert(t[j2] == if j2 < i {
                            olds[j2]
                        } else {
                            olds[j2 + 1]
                        });
                    }
                }
                return ;
            }
            i += 1;
        }
    }

    /// Insert a source row with this id and content description; the
    /// reference count starts at 1. Refused when the id is taken.
    pub fn insert_source(&mut self, id: &str, hash256: &str, compressed: bool, size: u64) -> (r:
        Result<(), StoreError>)
        requires
            old(self).wf(),
        ensures
            final(self).wf(),
            final(self).spec_links() == old(self).spec_links(),
            r is Ok <==> !has_source_id(old(self).spec_sources(), id@),
            r is Ok ==> {
                &&& final(self).spec_sources().len() == old(self).spec_sources().len() + 1
                &&& final(self).spec_sources().take(old(self).spec_sources().len() as int) == old(self).spec_sources()
                &&& final(self).spec_sources().last().id@ == id@
                &&& final(self).spec_sources().last().hash256@ == hash256@
                &&& final(self).spec_sources().last().compressed == compressed
                &&& final(self).spec_sources().last().size == size
                &&& final(self).spec_sources().last().count == 1
            },
            r matches Err(e) ==> e == StoreError::InternalError && *final(self) == *old(self),
    {
        let n = self.sources.len();
        let mut i: usize = 0;
        while i < n
            invariant
                i <= n,
                n == self.spec_sources().len(),
                *self == *old(self),
                old(self).wf(),
                forall|k: int| 0 <= k < i ==> self.spec_sources()[k].id@ != id@,
            decreases n - i,
        {
            if str_eq(self.sources[i].id.as_str(), id) {
                proof {
                    assert(old(self).spec_sources()[i as int].id@ == id@);
                }
                return Err(StoreError::InternalError);
            }
            i += 1;
        }
        let now = now_datetime_string();
        let source = Source {
            id: id.to_owned(),
            hash256: hash256.to_owned(),
            compressed,
            size,
            count: 1,
            create_at: now.clone(),
            update_at: now,
        };
        self.sources.push(source);
        proof {
            let os = old(self).spec_sources();
            let ss = self.spec_sources();
            let on = os.len() as int;
            assert(ss.take(on) =~= os);
            assert forall|i2: int, j2: int| 0 <= i2 < j2 < ss.len() implies ss[i2].id@
                != ss[j2].id@ by {
                if j2 < on {
                    assert(ss[i2] == os[i2] && ss[j2] == os[j2]);
                } else {
                    assert(ss[i2] == os[i2] && ss[j2].id@ == id@);
                }
            }
        }
        Ok(())
    }

    /// The source row with this id, if any.
    pub fn get_source_by_id(&self, id: &str) -> (r: Option<Source>)
        ensures
            r is Some <==> has_source_id(self.spec_sources(), id@),
            r matches Some(s) ==> s.id@ == id@ && self.spec_sources().contains(s),
    {
        let n = self.sources.len();
        let mut i: usize = 0;
        while i < n
            invariant
                i <= n,
                n == self.spec_sources().len(),
                forall|k: int| 0 <= k < i ==> self.spec_sources()[k].id@ != id@,
            decreases n - i,
        {
            if str_eq(self.sources[i].id.as_str(), id) {
                let s = self.sources[i].clone();
                return Some(s);
            }
            i += 1;
        }
        None
    }

    /// All links whose name matches a SQL-LIKE pattern given as
    /// characters, in table order.
    pub fn get_links_like(&self, pat: &Vec<char>) -> (r: Vec<Link>)
        ensures
            r@ == self.spec_links().filter(|l: Link| like_match(pat@, l.name@)),
    {
        let ghost pred = |l: Link| like_match(pat@, l.name@);
        let n = self.links.len();
        let mut r: Vec<Link> = Vec::new();
        let mut i: usize = 0;
        proof {
            reveal_with_fuel(Seq::<Link>::filter, 2);
            assert(self.spec_links().take(0).filter(pred) =~= Seq::<Link>::empty());
        }
        while i < n
            invariant
                i <= n,
                n == self.spec_links().len(),
                pred == (|l: Link| like_match(pat@, l.name@)),
                r@ == self.spec_links().take(i as int).filter(pred),
            decreases n - i,
        {
            let l = &self.links[i];
            let text = str_chars(l.name.as_str());
            if like_match_exec(pat, &text) {
                r.push(l.clone());
            }
            proof {
                reveal_with_fuel(Seq::<Link>::filter, 2);
                let s = self.spec_links();
                assert(s.take(i + 1 as int).drop_last() =~= s.take(i as int));
                assert(s.take(i + 1 as int).last() == s[i as int]);
                assert(s.take(i + 1 as int).filter(pred) == if pred(s[i as int]) {
                    s.take(i as int).filter(pred).push(s[i as int])
                } else {
                    s.take(i as int).filter(pred)
                });
            }
            i += 1;
        }
        proof {
            assert(self.spec_links().take(n as int) =~= self.spec_links());
        }
        r
    }

    /// The source row at a table position.
    pub fn source_ref(&self, i: usize) -> (r: &Source)
        requires
            i < self.spec_sources().len(),
        ensures
            *r == self.spec_sources()[i as int],
    {
        &self.sources[i]
    }

    /// The position of the source row with this id, if any.
    pub fn source_index(&self, id: &str) -> (r: Option<usize>)
        ensures
            r is Some <==> has_source_id(self.spec_sources(), id@),
            r matches Some(i) ==> i < self.spec_sources().len() && self.spec_sources()[i as int].id@
                == id@,
    {
        let n = self.sources.len();
        let mut i: usize = 0;
        while i < n
            invariant
                i <= n,
                n == self.spec_sources().len(),
                forall|k: int| 0 <= k < i ==> self.spec_sources()[k].id@ != id@,
            decreases n - i,
        {
            if str_eq(self.sources[i].id.as_str(), id) {
                return Some(i);
            }
            i += 1;
        }
        None
    }

    /// The first source row with this content hash, if any.
    pub fn get_source_by_hash256(&self, hash256: &str) -> (r: Option<Source>)
        ensures
            r is Some <==> has_source_hash(self.spec_sources(), hash256@),
            r matches Some(s) ==> ({
                let i = first_hash_at(self.spec_sources(), hash256@);
                &&& 0 <= i < self.spec_sources().len()
                &&& self.spec_sources()[i] == s
                &&& s.hash256@ == hash256@
                &&& forall|k: int| 0 <= k < i ==> self.spec_sources()[k].hash256@ != hash256@
            }),
    {
        let n = self.sources.len();
        let mut i: usize = 0;
        while i < n
            invariant
                i <= n,
                n == self.spec_sources().len(),
                forall|k: int| 0 <= k < i ==> self.spec_sources()[k].hash256@ != hash256@,
            decreases n - i,
        {
            if str_eq(self.sources[i].hash256.as_str(), hash256) {
                proof {
                    let ss = self.spec_sources();
                    assert(ss[i as int].hash256@ == hash256@ && (forall|k: int|
                        0 <= k < i ==> ss[k].hash256@ != hash256@));
                    let c = first_hash_at(ss, hash256@);
                    assert(0 <= c < ss.len() && ss[c].hash256@ == hash256@ && (forall|k: int|
                        0 <= k < c ==> ss[k].hash256@ != hash256@));
                    if c < i {
                        assert(ss[c].hash256@ != hash256@);
                    } else if i < c {
                        assert(ss[i as int].hash256@ != hash256@);
                    }
                }
                let s = self.sources[i].clone();
                return Some(s);
            }
            i += 1;
        }
        None
    }

    /// Repoint the link with this id at a new source.
    pub fn update_link_source_id(&mut self, link_id: &str, new_source_id: &str)
        requires
            old(self).wf(),
        ensures
            final(self).wf(),
            final(self).spec_sources() == old(self).spec_sources(),
            !has_link_id(old(self).spec_links(), link_id@) ==> final(self).spec_links() == old(self).spec_links(),
            has_link_id(old(self).spec_links(), link_id@) ==> ({
                    let i = link_at(old(self).spec_links(), link_id@);
                    &&& 0 <= i < old(self).spec_links().len()
                    &&& old(self).spec_links()[i].id@ == link_id@
                    &&& final(self).spec_links().len() == old(self).spec_links().len()
                    &&& (forall|j: int|
                        0 <= j < old(self).spec_links().len() && j != i ==> final(self).spec_links()[j] == old(self).spec_links()[j])
                    &&& final(self).spec_links()[i].id == old(self).spec_links()[i].id
                    &&& final(self).spec_links()[i].name == old(self).spec_links()[i].name
                    &&& final(self).spec_links()[i].ext == old(self).spec_links()[i].ext
                    &&& final(self).spec_links()[i].source_id@ == new_source_id@
            }),
    {
        let n = self.links.len();
        let mut i: usize = 0;
        while i < n
            invariant
                i <= n,
                n == self.spec_links().len(),
                *self == *old(self),
                old(self).wf(),
                forall|k: int| 0 <= k < i ==> self.spec_links()[k].id@ != link_id@,
            decreases n - i,
        {
            if str_eq(self.links[i].id.as_str(), link_id) {
                let ghost olds = self.spec_links();
                let updated = Link {
                    id: self.links[i].id.clone(),
                    name: self.links[i].name.clone(),
                    ext: self.links[i].ext.clone(),
                    source_id: new_source_id.to_owned(),
                };
                let removed = self.links.remove(i);
                let ghost mid = self.spec_links();
                self.links.insert(i, updated);
                proof {
                    assert(olds[i as int].id@ == link_id@);
                    assert(has_link_id(olds, link_id@));
                    let c = link_at(olds, link_id@);
                    assert(0 <= c < olds.len() && olds[c].id@ == link_id@);
                    lemma_link_id_unique(olds, c, i as int);
                    olds.remove_ensures(i as int);
                    mid.insert_ensures(i as int, updated);
                    let t = self.spec_links();
                    assert forall|j: int| 0 <= j < olds.len() && j != i implies t[j]
                        == olds[j] by {
                        if j < i {
                            assert(t[j] == mid[j] && mid[j] == olds[j]);
                        } else {
                            assert(t[j] == mid[j - 1] && mid[j - 1] == olds[j]);
                        }
                    }
                    assert(t[i as int] == updated);
                    assert forall|i2: int, j2: int| 0 <= i2 < j2 < t.len() implies t[i2].id@
                        != t[j2].id@ by {
                        assert(t[i2] == if i2 == i {
                            updated
                        } else {
                            olds[i2]
                        });
                        assert(t[j2] == if j2 == i {
                            updated
                        } else {
                            olds[j2]
                        });
                        assert(updated.id@ == olds[i as int].id@);
                    }
                }
                return ;
            }
            i += 1;
        }
    }

    /// Rewrite the content description and reference count of the
    /// source with this id; its id and creation time are kept.
    pub fn update_source(
        &mut self,
        id: &str,
        new_hash256: &str,
        new_compressed: bool,
        new_size: u64,
        new_count: u64,
    )
        requires
            old(self).wf(),
        ensures
            final(self).wf(),
            final(self).spec_links() == old(self).spec_links(),
            !has_source_id(old(self).spec_sources(), id@) ==> final(self).spec_sources() == old(self).spec_sources(),
            has_source_id(old(self).spec_sources(), id@) ==> ({
                    let i = source_at(old(self).spec_sources(), id@);
                    &&& 0 <= i < old(self).spec_sources().len()
                    &&& old(self).spec_sources()[i].id@ == id@
                    &&& final(self).spec_sources().len() == old(self).spec_sources().len()
                    &&& (forall|j: int|
                        0 <= j < old(self).spec_sources().len() && j != i ==> final(self).spec_sources()[j] == old(self).spec_sources()[j])
                    &&& final(self).spec_sources()[i].id == old(self).spec_sources()[i].id
                    &&& final(self).spec_sources()[i].hash256@ == new_hash256@
                    &&& final(self).spec_sources()[i].compressed == new_compressed
                    &&& final(self).spec_sources()[i].size == new_size
                    &&& final(self).spec_sources()[i].count == new_count
                    &&& final(self).spec_sources()[i].create_at == old(self).spec_sources()[i].create_at
            }),
    {
        let n = self.sources.len();
        let mut i: usize = 0;
        while i < n
            invariant
                i <= n,
                n == self.spec_sources().len(),
                *self == *old(self),
                old(self).wf(),
                forall|k: int| 0 <= k < i ==> self.spec_sources()[k].id@ != id@,
            decreases n - i,
        {
            if str_eq(self.sources[i].id.as_str(), id) {
                let ghost olds = self.spec_sources();
                let updated = Source {
                    id: self.sources[i].id.clone(),
                    hash256: new_hash256.to_owned(),
                    compressed: new_compressed,
                    size: new_size,
                    count: new_count,
                    create_at: self.sources[i].create_at.clone(),
                    update_at: now_datetime_string(),
                };
                let removed = self.sources.remove(i);
                let ghost mid = self.spec_sources();
                self.sources.insert(i, updated);
                proof {
                    assert(olds[i as int].id@ == id@);
                    assert(has_source_id(olds, id@));
                    let c = source_at(olds, id@);
                    assert(0 <= c < olds.len() && olds[c].id@ == id@);
                    lemma_source_id_unique(olds, c, i as int);
                    olds.remove_ensures(i as int);
                    mid.insert_ensures(i as int, updated);
                    let t = self.spec_sources();
                    assert forall|j: int| 0 <= j < olds.len() && j != i implies t[j]
                        == olds[j] by {
                        if j < i {
                            assert(t[j] == mid[j] && mid[j] == olds[j]);
                        } else {
                            assert(t[j] == mid[j - 1] && mid[j - 1] == olds[j]);
                        }
                    }
                    assert(t[i as int] == updated);
                    assert forall|i2: int, j2: int| 0 <= i2 < j2 < t.len() implies t[i2].id@
                        != t[j2].id@ by {
                        assert(t[i2] == if i2 == i {
                            updated
                        } else {
                            olds[i2]
                        });
                        assert(t[j2] == if j2 == i {
                            updated
                        } else {
                            olds[j2]
                        });
                        assert(updated.id@ == olds[i as int].id@);
                    }
                }
                return ;
            }
            i += 1;
        }
    }

    /// Delete the source row with this id, if any.
    pub fn delete_source_by_id(&mut self, id: &str)
        requires
            old(self).wf(),
        ensures
            final(self).wf(),
            final(self).spec_links() == old(self).spec_links(),
            !has_source_id(old(self).spec_sources(), id@) ==> final(self).spec_sources() == old(self).spec_sources(),
            has_source_id(old(self).spec_sources(), id@) ==> ({
                let i = source_at(old(self).spec_sources(), id@);
                &&& 0 <= i < old(self).spec_sources().len()
                &&& old(self).spec_sources()[i].id@ == id@
                &&& final(self).spec_sources() == old(self).spec_sources().remove(i)
            }),
    {
        let n = self.sources.len();
        let mut i: usize = 0;
        while i < n
            invariant
                i <= n,
                n == self.spec_sources().len(),
                *self == *old(self),
                old(self).wf(),
                forall|k: int| 0 <= k < i ==> self.spec_sources()[k].id@ != id@,
            decreases n - i,
        {
            if str_eq(self.sources[i].id.as_str(), id) {
                let ghost olds = self.spec_sources();
                self.sources.remove(i);
                proof {
                    assert(olds[i as int].id@ == id@);
                    assert(has_source_id(olds, id@));
                    let c = source_at(olds, id@);
                    assert(0 <= c < olds.len() && olds[c].id@ == id@);
                    lemma_source_id_unique(olds, c, i as int);
                    olds.remove_ensures(i as int);
                    let t = self.spec_sources();
                    assert forall|i2: int, j2: int| 0 <= i2 < j2 < t.len() implies t[i2].id@
                        != t[j2].id@ by {
                        assert(t[i2] == if i2 < i {
                            olds[i2]
                        } else {
                            olds[i2 + 1]
                        });
                        assert(t[j2] == if j2 < i {
                            olds[j2]
                        } else {
                            olds[j2 + 1]
                        });
                    }
                }
                return ;
            }
            i += 1;
        }
    }
}

} // verus!
