//! Content resolution: entries derived from a directory scan of the
//! content root, the newest-first listing, and the safe mapping from an
//! encoded request segment back to a single filename.
//!
//! Identifiers are the raw filename bytes; the externally visible path
//! segment is their percent-encoding, and decoding it recovers the bytes
//! exactly. A decoded segment is accepted only as a single path component
//! strictly inside the content root: separators and the current- or
//! parent-directory tokens are rejected.

use vstd::prelude::*;

use crate::codec::{my_urldecode, my_urlencode, spec_decode, spec_encode};
use crate::strutil::lossy_utf8_of;
use crate::time::{path_time_modified, spec_time_or_epoch, Timestamp};

verus! {

/// Why a request segment failed to resolve: its percent-encoding was
/// malformed, or the decoded bytes would not stay inside the content
/// root as one filename.
#[derive(Clone, Copy, PartialEq, Eq, Structural, Debug)]
pub enum ResolveError {
    DecodeError,
    PathResolutionError,
}

/// The index of the first occurrence of `b` in `s`, if any.
pub open spec fn spec_find_byte(s: Seq<u8>, b: u8) -> Option<int>
    decreases s.len(),
{
    if s.len() == 0 {
        None
    } else if s[0] == b {
        Some(0)
    } else {
        match spec_find_byte(s.drop_first(), b) {
            Some(i) => Some(i + 1),
            None => None,
        }
    }
}

/// The prefix of `s` before the first occurrence of `b`; all of `s` if
/// `b` does not occur.
pub open spec fn before_first_byte(s: Seq<u8>, b: u8) -> Seq<u8> {
    match spec_find_byte(s, b) {
        Some(i) => s.take(i),
        None => s,
    }
}

proof fn lemma_find_byte_is_first(s: Seq<u8>, b: u8)
    ensures
        match spec_find_byte(s, b) {
            Some(i) => 0 <= i < s.len() && s[i] == b && (forall|k: int| 0 <= k < i ==> s[k] != b),
            None => forall|k: int| 0 <= k < s.len() ==> s[k] != b,
        },
    decreases s.len(),
{
    if s.len() == 0 {
    } else if s[0] == b {
    } else {
        lemma_find_byte_is_first(s.drop_first(), b);
        assert(forall|k: int| 0 <= k < s.drop_first().len() ==> s.drop_first()[k] == s[k + 1]);
        if spec_find_byte(s.drop_first(), b) is Some {
            let i = spec_find_byte(s.drop_first(), b).unwrap();
            assert(s.drop_first()[i] == s[i + 1]);
            assert forall|k: int| 0 <= k < i + 1 implies s[k] != b by {
                if k >= 1 {
                    assert(s.drop_first()[k - 1] == s[k]);
                }
            }
        } else {
            assert forall|k: int| 0 <= k < s.len() implies s[k] != b by {
                if k >= 1 {
                    assert(s.drop_first()[k - 1] == s[k]);
                }
            }
        }
    }
}

/// The display title derived from a filename: the bytes before the first
/// `.`, decoded leniently; an empty prefix yields `Untitled`.
pub open spec fn spec_title(name: Seq<u8>) -> Seq<char> {
    let tb = before_first_byte(name, 46);
    if tb.len() == 0 {
        "Untitled"@
    } else {
        lossy_utf8_of(tb)
    }
}

/// A decoded identifier that stays strictly inside the content root as a
/// single filename: non-empty, not a current- or parent-directory token,
/// and free of path separators and NUL.
pub open spec fn is_safe_component(name: Seq<u8>) -> bool {
    name.len() > 0 && name != seq![46u8] && name != seq![46u8, 46u8] && (forall|i: int|
        0 <= i < name.len() ==> name[i] != 47 && name[i] != 92 && name[i] != 0)
}

/// One content entry, backed by exactly one file under the content root.
pub struct Post {
    pub title: String,
    pub original_fn: Vec<u8>,
    pub post_date: Timestamp,
}

/// The mathematical shape of a [`Post`].
pub ghost struct PostView {
    pub title: Seq<char>,
    pub original_fn: Seq<u8>,
    pub post_date: Timestamp,
}

impl View for Post {
    type V = PostView;

    open spec fn view(&self) -> PostView {
        PostView { title: self.title@, original_fn: self.original_fn@, post_date: self.post_date }
    }
}

/// What resolving an encoded request segment yields: the raw filename
/// bytes, or the reason they are refused.
pub open spec fn spec_resolve(request_path: Seq<char>) -> Result<Seq<u8>, ResolveError> {
    match spec_decode(request_path) {
        None => Err(ResolveError::DecodeError),
        Some(bytes) => if is_safe_component(bytes) {
            Ok(bytes)
        } else {
            Err(ResolveError::PathResolutionError)
        },
    }
}

/// Decode an encoded request segment and admit it only as one safe
/// filename component.
pub fn resolve_request_path(request_path: &str) -> (r: Result<Vec<u8>, ResolveError>)
    ensures
        match r {
            Ok(bytes) => spec_resolve(request_path@) == Ok::<Seq<u8>, ResolveError>(bytes@),
            Err(e) => spec_resolve(request_path@) == Err::<Seq<u8>, ResolveError>(e),
        },
{
    let bytes = match my_urldecode(request_path) {
        Ok(bytes) => bytes,
        Err(_) => {
            return Err(ResolveError::DecodeError);
        },
    };
    if is_safe_component_exec(&bytes) {
        Ok(bytes)
    } else {
        Err(ResolveError::PathResolutionError)
    }
}

/// The display title of a filename, by the one fallback rule.
fn title_from_name(name: &Vec<u8>) -> (r: String)
    ensures
        r@ == spec_title(name@),
{
    let n = name.len();
    let mut end: usize = n;
    let mut i: usize = 0;
    let mut found: bool = false;
    while i < n && !found
        invariant
            i <= n,
            n == name@.len(),
            !found ==> end == n && forall|k: int| 0 <= k < i ==> name@[k] != 46,
            found ==> 0 <= end < n && name@[end as int] == 46 && (forall|k: int|
                0 <= k < end ==> name@[k] != 46),
        decreases n - i + (if found {
            0int
        } else {
            1int
        }),
    {
        if name[i] == 46 {
            end = i;
            found = true;
        } else {
            i = i + 1;
        }
    }
    proof {
        lemma_find_byte_is_first(name@, 46);
        if found {
            assert(spec_find_byte(name@, 46) == Some(end as int));
        } else {
            assert(spec_find_byte(name@, 46) is None);
            assert(name@.take(n as int) =~= name@);
        }
    }
    let mut prefix: Vec<u8> = Vec::new();
    proof {
        assert(prefix@ =~= name@.take(0));
    }
    let mut j: usize = 0;
    while j < end
        invariant
            j <= end <= n,
            n == name@.len(),
            prefix@ == name@.take(j as int),
        decreases end - j,
    {
        prefix.push(name[j]);
        proof {
            assert(prefix@ =~= name@.take(j + 1));
        }
        j = j + 1;
    }
    proof {
        assert(prefix@ == before_first_byte(name@, 46));
    }
    if prefix.len() == 0 {
        let r = String::from_str("Untitled");
        proof {
            assert(before_first_byte(name@, 46).len() == 0);
        }
        r
    } else {
        crate::strutil::lossy_string(&prefix)
    }
}

impl Post {
    /// Resolve one encoded request segment into a content entry, with the
    /// modification time the caller read for that file, if any.
    pub fn from_path(request_path: &str, modified: Option<Timestamp>) -> (r: Result<
        Post,
        ResolveError,
    >)
        ensures
            match r {
                Ok(p) => {
                    &&& spec_resolve(request_path@) == Ok::<Seq<u8>, ResolveError>(p@.original_fn)
                    &&& p@.title == spec_title(p@.original_fn)
                    &&& p@.post_date == spec_time_or_epoch(modified)
                },
                Err(e) => spec_resolve(request_path@) == Err::<Seq<u8>, ResolveError>(e),
            },
    {
        let original_fn = match resolve_request_path(request_path) {
            Ok(bytes) => bytes,
            Err(e) => {
                return Err(e);
            },
        };
        let title = title_from_name(&original_fn);
        let post_date = path_time_modified(modified);
        Ok(Post { title, original_fn, post_date })
    }

    /// The externally visible path of this entry: the `posts/` prefix and
    /// the percent-encoded identifier.
    pub fn url_path(&self) -> (r: String)
        ensures
            r@ == "posts/"@ + spec_encode(self.original_fn@),
    {
        let mut out = String::from_str("posts/");
        let encoded = my_urlencode(self.original_fn.as_slice());
        out.append(encoded.as_str());
        out
    }
}

/// What a directory scan could read about one entry; `meta` is `None`
/// when the entry's metadata was unreadable.
pub struct ScanEntry {
    pub name: Vec<u8>,
    pub meta: Option<ScanMeta>,
}

/// The parts of file metadata the listing reads.
#[derive(Clone, Copy, PartialEq, Eq, Structural, Debug)]
pub struct ScanMeta {
    pub is_file: bool,
    pub modified: Option<Timestamp>,
}

/// The mathematical shape of a [`ScanEntry`].
pub ghost struct ScanEntryView {
    pub name: Seq<u8>,
    pub meta: Option<ScanMeta>,
}

impl View for ScanEntry {
    type V = ScanEntryView;

    open spec fn view(&self) -> ScanEntryView {
        ScanEntryView { name: self.name@, meta: self.meta }
    }
}

/// The modification time an entry lists under, by the fallback policy.
pub open spec fn entry_date(e: ScanEntryView) -> Timestamp {
    spec_time_or_epoch(e.meta.unwrap().modified)
}

/// Whether a scanned entry appears in a listing that starts after
/// `start_at`: it has readable metadata, is a regular file, and was
/// modified strictly after `start_at`. Every regular file lists; safety
/// of a name is a concern of resolution, not of the scan, whose names
/// are single components by construction.
pub open spec fn spec_keeps(e: ScanEntryView, start_at: Timestamp) -> bool {
    e.meta is Some && e.meta.unwrap().is_file && start_at.spec_lt(entry_date(e))
}

/// The entry a kept scan line becomes.
pub open spec fn spec_entry_post(e: ScanEntryView) -> PostView {
    PostView { title: spec_title(e.name), original_fn: e.name, post_date: entry_date(e) }
}

/// The kept entries, still in scan order.
pub open spec fn spec_posts_of(entries: Seq<ScanEntryView>, start_at: Timestamp) -> Seq<
    PostView,
> {
    entries.filter(|e: ScanEntryView| spec_keeps(e, start_at)).map_values(
        |e: ScanEntryView| spec_entry_post(e),
    )
}

/// Extending a scan by one entry extends the kept list by that entry
/// exactly when the listing keeps it.
proof fn lemma_posts_of_snoc(entries: Seq<ScanEntryView>, e: ScanEntryView, start_at: Timestamp)
    ensures
        spec_keeps(e, start_at) ==> spec_posts_of(entries.push(e), start_at) =~= spec_posts_of(
            entries,
            start_at,
        ).push(spec_entry_post(e)),
        !spec_keeps(e, start_at) ==> spec_posts_of(entries.push(e), start_at) =~= spec_posts_of(
            entries,
            start_at,
        ),
{
    reveal(Seq::filter);
    let snoc = entries.push(e);
    assert(snoc.drop_last() =~= entries);
    assert(snoc.last() == e);
    if spec_keeps(e, start_at) {
        assert(spec_posts_of(snoc, start_at) =~= spec_posts_of(entries, start_at).push(
            spec_entry_post(e),
        ));
    } else {
        assert(spec_posts_of(snoc, start_at) =~= spec_posts_of(entries, start_at));
    }
}

/// The element-wise view of a vector of posts.
pub open spec fn posts_view(s: Seq<Post>) -> Seq<PostView> {
    s.map_values(|x: Post| x@)
}

/// The element-wise view of a vector of scan entries.
pub open spec fn entries_view(s: Seq<ScanEntry>) -> Seq<ScanEntryView> {
    s.map_values(|e: ScanEntry| e@)
}

/// Insert into a descending list: after every entry no older, so that of
/// equal timestamps the earlier-scanned entry stays first.
pub open spec fn insert_desc(s: Seq<PostView>, p: PostView) -> Seq<PostView>
    decreases s.len(),
{
    if s.len() > 0 && p.post_date.spec_le(s[0].post_date) {
        seq![s[0]] + insert_desc(s.drop_first(), p)
    } else {
        seq![p] + s
    }
}

/// Newest first; insertion keeps ties in their original order.
pub open spec fn sort_desc(s: Seq<PostView>) -> Seq<PostView>
    decreases s.len(),
{
    if s.len() == 0 {
        Seq::empty()
    } else {
        insert_desc(sort_desc(s.drop_last()), s.last())
    }
}

/// The full listing: kept entries, newest first, at most `limit` of them.
pub open spec fn spec_newest_posts(
    entries: Seq<ScanEntryView>,
    limit: int,
    start_at: Timestamp,
) -> Seq<PostView> {
    let sorted = sort_desc(spec_posts_of(entries, start_at));
    if limit < sorted.len() {
        sorted.take(limit)
    } else {
        sorted
    }
}

proof fn lemma_insert_desc_at(s: Seq<PostView>, p: PostView, j: int)
    requires
        0 <= j <= s.len(),
        forall|k: int| 0 <= k < j ==> p.post_date.spec_le(s[k].post_date),
        j == s.len() || !p.post_date.spec_le(s[j as int].post_date),
    ensures
        insert_desc(s, p) == s.take(j) + seq![p] + s.skip(j),
    decreases j,
{
    if j == 0 {
        assert(s.take(0) =~= Seq::<PostView>::empty());
        assert(s.skip(0) =~= s);
        assert(insert_desc(s, p) =~= s.take(0) + seq![p] + s.skip(0));
    } else {
        assert(p.post_date.spec_le(s[0].post_date));
        lemma_insert_desc_at(s.drop_first(), p, j - 1);
        assert(forall|k: int|
            0 <= k < s.drop_first().len() ==> s.drop_first()[k] == s[k + 1]);
        assert(insert_desc(s, p) =~= s.take(j) + seq![p] + s.skip(j)) by {
            assert(s.drop_first().take(j - 1) =~= s.take(j).drop_first());
            assert(s.drop_first().skip(j - 1) =~= s.skip(j));
        }
    }
}

/// Insert one entry into an already-sorted vector, newest first, after
/// everything no older than it.
fn insert_sorted_desc(out: &mut Vec<Post>, p: Post)
    ensures
        posts_view(final(out)@) == insert_desc(posts_view(old(out)@), p@),
{
    let ghost s = posts_view(out@);
    let n = out.len();
    let mut j: usize = 0;
    while j < n && p.post_date.le(&out[j].post_date)
        invariant
            j <= n,
            n == out@.len(),
            s == posts_view(out@),
            forall|k: int| 0 <= k < j ==> p@.post_date.spec_le(s[k].post_date),
        decreases n - j,
    {
        j = j + 1;
    }
    proof {
        lemma_insert_desc_at(s, p@, j as int);
    }
    out.insert(j, p);
    proof {
        assert(posts_view(out@) =~= s.take(j as int) + seq![p@] + s.skip(j as int));
    }
}

/// Build the listing from a directory scan: keep every readable regular
/// file modified after `start_at`, order them newest first with ties in
/// scan order, and return at most `limit` of them.
pub fn newest_posts(entries: Vec<ScanEntry>, limit: usize, start_at: Timestamp) -> (r: Vec<Post>)
    ensures
        posts_view(r@) == spec_newest_posts(entries_view(entries@), limit as int, start_at),
{
    let ghost all = entries_view(entries@);
    let mut sorted: Vec<Post> = Vec::new();
    proof {
        assert(all.take(0) =~= Seq::<ScanEntryView>::empty());
        assert(spec_posts_of(all.take(0), start_at) =~= Seq::<PostView>::empty());
        assert(posts_view(sorted@) =~= Seq::<PostView>::empty());
    }
    let total = entries.len();
    let mut i: usize = 0;
    while i < total
        invariant
            i <= total,
            total == entries@.len(),
            all == entries_view(entries@),
            posts_view(sorted@) == sort_desc(spec_posts_of(all.take(i as int), start_at)),
        decreases total - i,
    {
        let ghost prev = all.take(i as int);
        proof {
            assert(all[i as int] == entries@[i as int]@);
            assert(all.take(i + 1).drop_last() =~= prev);
            assert(all.take(i + 1).last() == all[i as int]);
        }
        let e = &entries[i];
        let keep = match &e.meta {
            Some(meta) => meta.is_file,
            None => false,
        };
        let mut accept = false;
        if keep {
            let date = match &e.meta {
                Some(meta) => path_time_modified(meta.modified),
                None => Timestamp::epoch(),
            };
            if start_at.lt(&date) {
                accept = true;
            }
        }
        if accept {
            let name_copy = copy_bytes(&e.name);
            let title = title_from_name(&name_copy);
            let date = match &e.meta {
                Some(meta) => path_time_modified(meta.modified),
                None => Timestamp::epoch(),
            };
            let p = Post { title, original_fn: name_copy, post_date: date };
            proof {
                assert(spec_keeps(all[i as int], start_at));
                assert(p@ == spec_entry_post(all[i as int]));
                lemma_posts_of_snoc(prev, all[i as int], start_at);
                assert(all.take(i + 1) =~= prev.push(all[i as int]));
                assert(spec_posts_of(all.take(i + 1), start_at) == spec_posts_of(
                    prev,
                    start_at,
                ).push(p@));
                assert(sort_desc(spec_posts_of(all.take(i + 1), start_at)) == insert_desc(
                    sort_desc(spec_posts_of(prev, start_at)),
                    p@,
                )) by {
                    assert(spec_posts_of(prev, start_at).push(p@).drop_last() =~= spec_posts_of(
                        prev,
                        start_at,
                    ));
                }
            }
            insert_sorted_desc(&mut sorted, p);
        } else {
            proof {
                assert(!spec_keeps(all[i as int], start_at));
                lemma_posts_of_snoc(prev, all[i as int], start_at);
                assert(all.take(i + 1) =~= prev.push(all[i as int]));
                assert(spec_posts_of(all.take(i + 1), start_at) == spec_posts_of(prev, start_at));
            }
        }
        i = i + 1;
    }
    proof {
        assert(all.take(total as int) =~= all);
    }
    let ghost sorted_full = posts_view(sorted@);
    if limit < sorted.len() {
        sorted.truncate(limit);
        proof {
            assert(posts_view(sorted@) =~= sorted_full.take(limit as int));
        }
    }
    sorted
}

/// Whether decoded bytes are one safe filename component.
pub fn is_safe_component_exec(name: &Vec<u8>) -> (r: bool)
    ensures
        r == is_safe_component(name@),
{
    let n = name.len();
    if n == 0 {
        return false;
    }
    if n == 1 && name[0] == 46 {
        proof {
            assert(name@ =~= seq![46u8]);
        }
        return false;
    }
    if n == 2 && name[0] == 46 && name[1] == 46 {
        proof {
            assert(name@ =~= seq![46u8, 46u8]);
        }
        return false;
    }
    let mut i: usize = 0;
    while i < n
        invariant
            i <= n,
            n == name@.len(),
            forall|k: int| 0 <= k < i ==> name@[k] != 47 && name@[k] != 92 && name@[k] != 0,
        decreases n - i,
    {
        let b = name[i];
        if b == 47 || b == 92 || b == 0 {
            return false;
        }
        i = i + 1;
    }
    proof {
        if name@ == seq![46u8] {
            assert(name@.len() == 1);
        }
        if name@ == seq![46u8, 46u8] {
            assert(name@.len() == 2 && name@[0] == 46 && name@[1] == 46);
        }
    }
    true
}

/// A plain element-for-element copy of a byte vector.
fn copy_bytes(v: &Vec<u8>) -> (r: Vec<u8>)
    ensures
        r@ == v@,
{
    let mut out: Vec<u8> = Vec::new();
    let n = v.len();
    let mut i: usize = 0;
    while i < n
        invariant
            i <= n,
            n == v@.len(),
            out@ == v@.take(i as int),
        decreases n - i,
    {
        out.push(v[i]);
        proof {
            assert(out@ =~= v@.take(i + 1));
        }
        i = i + 1;
    }
    proof {
        assert(v@.take(n as int) =~= v@);
    }
    out
}

} // verus!

verus! {

/// Newest first: each entry is no older than every entry after it.
pub open spec fn is_sorted_desc(s: Seq<PostView>) -> bool {
    forall|i: int, j: int| 0 <= i < j < s.len() ==> s[j].post_date.spec_le(s[i].post_date)
}

proof fn lemma_insert_desc_props(s: Seq<PostView>, p: PostView)
    requires
        is_sorted_desc(s),
    ensures
        is_sorted_desc(insert_desc(s, p)),
        insert_desc(s, p).len() == s.len() + 1,
        forall|k: int|
            0 <= k < insert_desc(s, p).len() ==> (#[trigger] insert_desc(s, p)[k] == p
                || s.contains(insert_desc(s, p)[k])),
    decreases s.len(),
{
    if s.len() > 0 && p.post_date.spec_le(s[0].post_date) {
        let tail = s.drop_first();
        assert(forall|k: int| 0 <= k < tail.len() ==> tail[k] == s[k + 1]);
        lemma_insert_desc_props(tail, p);
        let ins = insert_desc(s, p);
        let tins = insert_desc(tail, p);
        assert(ins =~= seq![s[0]] + tins);
        assert forall|k: int| 0 <= k < ins.len() implies (ins[k] == p || s.contains(ins[k])) by {
            if k >= 1 {
                assert(ins[k] == tins[k - 1]);
                if tins[k - 1] != p {
                    let m = choose|m: int| 0 <= m < tail.len() && tail[m] == tins[k - 1];
                    assert(s[m + 1] == tins[k - 1]);
                }
            } else {
                assert(s.contains(s[0])) by {
                    assert(s[0] == s[0]);
                }
            }
        }
        assert forall|i: int, j: int| 0 <= i < j < ins.len() implies ins[j].post_date.spec_le(
            ins[i].post_date,
        ) by {
            if i == 0 {
                if ins[j] == p {
                } else {
                    let m = choose|m: int| 0 <= m < tail.len() && tail[m] == ins[j];
                    assert(tail[m].post_date.spec_le(s[0].post_date));
                }
            } else {
                assert(ins[i] == tins[i - 1] && ins[j] == tins[j - 1]);
            }
        }
    } else {
        let ins = insert_desc(s, p);
        assert(ins =~= seq![p] + s);
        assert forall|k: int| 0 <= k < ins.len() implies (ins[k] == p || s.contains(ins[k])) by {
            if k >= 1 {
                assert(s[k - 1] == ins[k]);
            }
        }
        if s.len() > 0 {
            assert(s[0].post_date.spec_lt(p.post_date));
        }
        assert forall|i: int, j: int| 0 <= i < j < ins.len() implies ins[j].post_date.spec_le(
            ins[i].post_date,
        ) by {
            if i == 0 {
                assert(ins[j] == s[j - 1]);
                if j - 1 > 0 {
                    assert(s[j - 1].post_date.spec_le(s[0].post_date));
                }
            } else {
                assert(ins[i] == s[i - 1] && ins[j] == s[j - 1]);
            }
        }
    }
}

proof fn lemma_sort_desc_props(s: Seq<PostView>)
    ensures
        is_sorted_desc(sort_desc(s)),
        sort_desc(s).len() == s.len(),
        forall|k: int|
            0 <= k < sort_desc(s).len() ==> s.contains(#[trigger] sort_desc(s)[k]),
    decreases s.len(),
{
    if s.len() == 0 {
    } else {
        let front = s.drop_last();
        lemma_sort_desc_props(front);
        lemma_insert_desc_props(sort_desc(front), s.last());
        let out = sort_desc(s);
        assert(out == insert_desc(sort_desc(front), s.last()));
        assert forall|k: int| 0 <= k < out.len() implies s.contains(#[trigger] out[k]) by {
            if out[k] == s.last() {
                assert(s[s.len() - 1] == s.last());
            } else {
                assert(sort_desc(front).contains(out[k]));
                let m = choose|m: int|
                    0 <= m < sort_desc(front).len() && sort_desc(front)[m] == out[k];
                assert(front.contains(sort_desc(front)[m]));
                let m2 = choose|m2: int| 0 <= m2 < front.len() && front[m2] == out[k];
                assert(s[m2] == out[k]);
            }
        }
    }
}

/// The listing is newest-first, holds at most `limit` entries, and every
/// entry it holds was modified strictly after `start_at`.
pub proof fn lemma_newest_posts_ordered(
    entries: Seq<ScanEntryView>,
    limit: int,
    start_at: Timestamp,
)
    requires
        limit >= 0,
    ensures
        is_sorted_desc(spec_newest_posts(entries, limit, start_at)),
        spec_newest_posts(entries, limit, start_at).len() <= limit,
        forall|k: int|
            0 <= k < spec_newest_posts(entries, limit, start_at).len() ==> start_at.spec_lt(
                (#[trigger] spec_newest_posts(entries, limit, start_at)[k]).post_date,
            ),
{
    let posts = spec_posts_of(entries, start_at);
    let sorted = sort_desc(posts);
    let r = spec_newest_posts(entries, limit, start_at);
    lemma_sort_desc_props(posts);
    let pred = |e: ScanEntryView| spec_keeps(e, start_at);
    assert forall|k: int| 0 <= k < r.len() implies start_at.spec_lt(
        (#[trigger] r[k]).post_date,
    ) by {
        assert(r[k] == sorted[k]);
        assert(posts.contains(sorted[k]));
        let m = choose|m: int| 0 <= m < posts.len() && posts[m] == sorted[k];
        assert(posts[m] == spec_entry_post(entries.filter(pred)[m]));
        entries.lemma_filter_pred(pred, m);
        assert(spec_keeps(entries.filter(pred)[m], start_at));
    }
}

proof fn lemma_posts_of_empty(start_at: Timestamp)
    ensures
        spec_posts_of(Seq::<ScanEntryView>::empty(), start_at) == Seq::<PostView>::empty(),
{
    reveal(Seq::filter);
    assert(spec_posts_of(Seq::<ScanEntryView>::empty(), start_at) =~= Seq::<PostView>::empty());
}

proof fn lemma_sort_three_desc(p1: PostView, p2: PostView, p3: PostView)
    requires
        p1.post_date.spec_lt(p2.post_date),
        p2.post_date.spec_lt(p3.post_date),
    ensures
        sort_desc(seq![p1, p2, p3]) == seq![p3, p2, p1],
{
    let ps = seq![p1, p2, p3];
    assert(ps.drop_last() =~= seq![p1, p2]);
    assert(seq![p1, p2].drop_last() =~= seq![p1]);
    assert(seq![p1].drop_last() =~= Seq::<PostView>::empty());
    assert(sort_desc(Seq::<PostView>::empty()) == Seq::<PostView>::empty());
    assert(insert_desc(Seq::<PostView>::empty(), p1) =~= seq![p1]);
    assert(sort_desc(seq![p1]) == seq![p1]);
    assert(insert_desc(seq![p1], p2) =~= seq![p2, p1]);
    assert(sort_desc(seq![p1, p2]) == seq![p2, p1]);
    assert(insert_desc(seq![p2, p1], p3) =~= seq![p3, p2, p1]);
    assert(sort_desc(ps) == seq![p3, p2, p1]);
}

proof fn lemma_posts_of_three(
    e1: ScanEntryView,
    e2: ScanEntryView,
    e3: ScanEntryView,
    start_at: Timestamp,
)
    requires
        spec_keeps(e1, start_at),
        spec_keeps(e2, start_at),
        spec_keeps(e3, start_at),
    ensures
        spec_posts_of(seq![e1, e2, e3], start_at) == seq![
            spec_entry_post(e1),
            spec_entry_post(e2),
            spec_entry_post(e3),
        ],
{
    let p1 = spec_entry_post(e1);
    let p2 = spec_entry_post(e2);
    let p3 = spec_entry_post(e3);
    lemma_posts_of_empty(start_at);
    lemma_posts_of_snoc(Seq::<ScanEntryView>::empty(), e1, start_at);
    assert(Seq::<ScanEntryView>::empty().push(e1) =~= seq![e1]);
    assert(spec_posts_of(seq![e1], start_at) =~= seq![p1]);
    lemma_posts_of_snoc(seq![e1], e2, start_at);
    assert(seq![e1].push(e2) =~= seq![e1, e2]);
    assert(spec_posts_of(seq![e1, e2], start_at) =~= seq![p1, p2]);
    lemma_posts_of_snoc(seq![e1, e2], e3, start_at);
    assert(seq![e1, e2].push(e3) =~= seq![e1, e2, e3]);
    assert(spec_posts_of(seq![e1, e2, e3], start_at) =~= seq![p1, p2, p3]);
}

/// Three regular files modified after the start, at strictly increasing
/// times: a listing with room for two returns the two most recent
/// entries, newest first.
pub proof fn lemma_three_files_two_newest(
    e1: ScanEntryView,
    e2: ScanEntryView,
    e3: ScanEntryView,
    start_at: Timestamp,
)
    requires
        spec_keeps(e1, start_at),
        spec_keeps(e2, start_at),
        spec_keeps(e3, start_at),
        entry_date(e1).spec_lt(entry_date(e2)),
        entry_date(e2).spec_lt(entry_date(e3)),
    ensures
        spec_newest_posts(seq![e1, e2, e3], 2, start_at) == seq![
            spec_entry_post(e3),
            spec_entry_post(e2),
        ],
{
    let p1 = spec_entry_post(e1);
    let p2 = spec_entry_post(e2);
    let p3 = spec_entry_post(e3);
    lemma_posts_of_three(e1, e2, e3, start_at);
    lemma_sort_three_desc(p1, p2, p3);
    assert(seq![p3, p2, p1].take(2) =~= seq![p3, p2]);
}

/// Raising the start to the middle entry's time excludes every entry
/// modified at or before it: of three regular files at strictly
/// increasing times only the newest returns, whatever room the limit
/// leaves.
pub proof fn lemma_three_files_cutoff(
    e1: ScanEntryView,
    e2: ScanEntryView,
    e3: ScanEntryView,
    limit: int,
)
    requires
        e1.meta is Some && e1.meta.unwrap().is_file,
        e2.meta is Some && e2.meta.unwrap().is_file,
        e3.meta is Some && e3.meta.unwrap().is_file,
        entry_date(e1).spec_lt(entry_date(e2)),
        entry_date(e2).spec_lt(entry_date(e3)),
        limit >= 1,
    ensures
        spec_newest_posts(seq![e1, e2, e3], limit, entry_date(e2)) == seq![spec_entry_post(e3)],
{
    let start_at = entry_date(e2);
    let p3 = spec_entry_post(e3);
    assert(!spec_keeps(e1, start_at));
    assert(!spec_keeps(e2, start_at));
    assert(spec_keeps(e3, start_at));
    lemma_posts_of_empty(start_at);
    lemma_posts_of_snoc(Seq::<ScanEntryView>::empty(), e1, start_at);
    assert(Seq::<ScanEntryView>::empty().push(e1) =~= seq![e1]);
    assert(spec_posts_of(seq![e1], start_at) =~= Seq::<PostView>::empty());
    lemma_posts_of_snoc(seq![e1], e2, start_at);
    assert(seq![e1].push(e2) =~= seq![e1, e2]);
    assert(spec_posts_of(seq![e1, e2], start_at) =~= Seq::<PostView>::empty());
    lemma_posts_of_snoc(seq![e1, e2], e3, start_at);
    assert(seq![e1, e2].push(e3) =~= seq![e1, e2, e3]);
    assert(spec_posts_of(seq![e1, e2, e3], start_at) =~= seq![p3]);
    assert(seq![p3].drop_last() =~= Seq::<PostView>::empty());
    assert(sort_desc(Seq::<PostView>::empty()) == Seq::<PostView>::empty());
    assert(insert_desc(Seq::<PostView>::empty(), p3) =~= seq![p3]);
    assert(sort_desc(seq![p3]) == seq![p3]);
}

/// The identifier of every entry survives the round trip through its
/// encoded path segment: decoding what the site publishes gives back the
/// raw filename bytes exactly.
pub proof fn lemma_identifier_round_trip(p: PostView)
    ensures
        spec_decode(spec_encode(p.original_fn)) == Some(p.original_fn),
{
    crate::codec::lemma_decode_encode(p.original_fn);
}

} // verus!
