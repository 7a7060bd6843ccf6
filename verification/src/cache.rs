//! A bounded in-memory response cache: a map from path to bytes and
//! MIME type whose total byte size never exceeds its limit.  The row of
//! entries records the access order itself, oldest first: a read moves
//! its entry to the end, and when an insertion would go over the limit,
//! entries are evicted from the front — least recently used first —
//! until it fits.  An entry larger than the whole limit is refused.

use vstd::prelude::*;

use crate::text::str_eq;

verus! {

/// One cached response.
pub struct CacheEntry {
    pub path: String,
    pub data: Vec<u8>,
    pub mime: String,
}

/// The cache: entries oldest-access-first and a byte budget.
pub struct Cache {
    pub entries: Vec<CacheEntry>,
    pub limit: u64,
}

/// The bytes held by a row of entries.
pub open spec fn used_of(s: Seq<CacheEntry>) -> int
    decreases s.len(),
{
    if s.len() == 0 {
        0
    } else {
        s[0].data@.len() + used_of(s.drop_first())
    }
}

/// The data and MIME type stored under `path`.
pub open spec fn cache_lookup(s: Seq<CacheEntry>, path: Seq<char>) -> Option<(Seq<u8>, Seq<char>)>
    decreases s.len(),
{
    if s.len() == 0 {
        None
    } else if s[0].path@ == path {
        Some((s[0].data@, s[0].mime@))
    } else {
        cache_lookup(s.drop_first(), path)
    }
}

/// The row without the entry stored under `path`, if any.
pub open spec fn remove_path(s: Seq<CacheEntry>, path: Seq<char>) -> Seq<CacheEntry>
    decreases s.len(),
{
    if s.len() == 0 {
        s
    } else if s[0].path@ == path {
        s.drop_first()
    } else {
        seq![s[0]] + remove_path(s.drop_first(), path)
    }
}

/// Entries dropped oldest-first until the row fits in `budget` bytes.
pub open spec fn drop_while_over(s: Seq<CacheEntry>, budget: int) -> Seq<CacheEntry>
    decreases s.len(),
{
    if used_of(s) <= budget || s.len() == 0 {
        s
    } else {
        drop_while_over(s.drop_first(), budget)
    }
}

/// The shape a store leaves behind: any old entry under the path gone,
/// the oldest entries evicted until the item fits, the item at the end.
pub open spec fn set_shape(
    pre: Seq<CacheEntry>,
    post: Seq<CacheEntry>,
    limit: u64,
    path: Seq<char>,
    data: Seq<u8>,
    mime: Seq<char>,
) -> bool {
    let kept = drop_while_over(remove_path(pre, path), limit - data.len());
    &&& post.len() == kept.len() + 1
    &&& post.take(kept.len() as int) == kept
    &&& post.last().path@ == path
    &&& post.last().data@ == data
    &&& post.last().mime@ == mime
}

/// No two entries share a path.
pub open spec fn paths_unique(s: Seq<CacheEntry>) -> bool {
    forall|i: int, j: int|
        0 <= i < j < s.len() ==> (#[trigger] s[i]).path@ != (#[trigger] s[j]).path@
}

pub proof fn lemma_used_nonneg(s: Seq<CacheEntry>)
    ensures
        used_of(s) >= 0,
    decreases s.len(),
{
    if s.len() > 0 {
        lemma_used_nonneg(s.drop_first());
    }
}

pub proof fn lemma_used_push(s: Seq<CacheEntry>, e: CacheEntry)
    ensures
        used_of(s.push(e)) == used_of(s) + e.data@.len(),
    decreases s.len(),
{
    if s.len() == 0 {
        assert(s.push(e)[0] == e);
        assert(s.push(e).drop_first() =~= Seq::<CacheEntry>::empty());
        assert(used_of(Seq::<CacheEntry>::empty()) == 0);
    } else {
        assert(s.push(e)[0] == s[0]);
        assert(s.push(e).drop_first() =~= s.drop_first().push(e));
        lemma_used_push(s.drop_first(), e);
    }
}

pub proof fn lemma_used_remove(s: Seq<CacheEntry>, i: int)
    requires
        0 <= i < s.len(),
    ensures
        used_of(s.remove(i)) == used_of(s) - s[i].data@.len(),
    decreases i,
{
    if i == 0 {
        assert(s.remove(0) =~= s.drop_first());
    } else {
        assert(s.remove(i).drop_first() =~= s.drop_first().remove(i - 1));
        assert(s.drop_first()[i - 1] == s[i]);
        lemma_used_remove(s.drop_first(), i - 1);
        assert(s.remove(i)[0] == s[0]);
    }
}

/// Unique paths survive dropping the oldest entry.
proof fn lemma_unique_drop_first(s: Seq<CacheEntry>)
    requires
        paths_unique(s),
        s.len() > 0,
    ensures
        paths_unique(s.drop_first()),
{
    let d = s.drop_first();
    assert forall|i: int, j: int| 0 <= i < j < d.len() implies (#[trigger] d[i]).path@ != (
    #[trigger] d[j]).path@ by {
        assert(d[i] == s[i + 1]);
        assert(d[j] == s[j + 1]);
    }
}

/// Every kept entry existed in the row before the removal.
proof fn lemma_remove_member(s: Seq<CacheEntry>, path: Seq<char>, k: int)
    requires
        0 <= k < remove_path(s, path).len(),
    ensures
        exists|j: int| 0 <= j < s.len() && remove_path(s, path)[k] == #[trigger] s[j],
    decreases s.len(),
{
    if s.len() == 0 {
    } else if s[0].path@ == path {
        assert(remove_path(s, path)[k] == s[k + 1]);
    } else {
        let rt = remove_path(s.drop_first(), path);
        if k == 0 {
            assert(remove_path(s, path)[0] == s[0]);
        } else {
            assert(remove_path(s, path)[k] == rt[k - 1]);
            lemma_remove_member(s.drop_first(), path, k - 1);
            let j0 = choose|j0: int|
                0 <= j0 < s.drop_first().len() && rt[k - 1] == #[trigger] s.drop_first()[j0];
            assert(rt[k - 1] == s[j0 + 1]);
        }
    }
}

/// Removing a path keeps paths unique, sheds its bytes, and leaves no
/// entry under that path.
proof fn lemma_remove_path_wf(s: Seq<CacheEntry>, path: Seq<char>)
    requires
        paths_unique(s),
    ensures
        paths_unique(remove_path(s, path)),
        used_of(remove_path(s, path)) <= used_of(s),
        forall|k: int|
            0 <= k < remove_path(s, path).len() ==> (#[trigger] remove_path(s, path)[k]).path@
                != path,
    decreases s.len(),
{
    lemma_used_nonneg(s);
    if s.len() == 0 {
    } else if s[0].path@ == path {
        lemma_unique_drop_first(s);
        lemma_used_nonneg(s.drop_first());
        assert forall|k: int| 0 <= k < s.drop_first().len() implies (
        #[trigger] s.drop_first()[k]).path@ != path by {
            assert(s.drop_first()[k] == s[k + 1]);
            assert(s[0].path@ != s[k + 1].path@);
        }
    } else {
        lemma_unique_drop_first(s);
        lemma_remove_path_wf(s.drop_first(), path);
        let rt = remove_path(s.drop_first(), path);
        let r = seq![s[0]] + rt;
        assert(r.drop_first() =~= rt);
        assert(r[0] == s[0]);
        assert(used_of(r) == s[0].data@.len() + used_of(rt));
        assert forall|i: int, j: int| 0 <= i < j < r.len() implies (#[trigger] r[i]).path@ != (
        #[trigger] r[j]).path@ by {
            if i == 0 {
                lemma_remove_member(s.drop_first(), path, j - 1);
                let j0 = choose|j0: int|
                    0 <= j0 < s.drop_first().len() && rt[j - 1] == #[trigger] s.drop_first()[j0];
                assert(rt[j - 1] == s.drop_first()[j0]);
                assert(r[j] == s[j0 + 1]);
                assert(s[0].path@ != s[j0 + 1].path@);
            } else {
                assert(r[i] == rt[i - 1]);
                assert(r[j] == rt[j - 1]);
            }
        }
        assert forall|k: int| 0 <= k < r.len() implies (#[trigger] r[k]).path@ != path by {
            if k > 0 {
                assert(r[k] == rt[k - 1]);
            }
        }
    }
}

/// When the first entry under `path` stands at `i`, removing the path
/// is removing that entry.
proof fn lemma_remove_path_at(s: Seq<CacheEntry>, path: Seq<char>, i: int)
    requires
        0 <= i < s.len(),
        s[i].path@ == path,
        forall|k: int| 0 <= k < i ==> (#[trigger] s[k]).path@ != path,
    ensures
        remove_path(s, path) =~= s.remove(i),
    decreases i,
{
    if i == 0 {
        assert(s.remove(0) =~= s.drop_first());
    } else {
        assert(s.drop_first()[i - 1] == s[i]);
        assert forall|k: int| 0 <= k < i - 1 implies (#[trigger] s.drop_first()[k]).path@
            != path by {
            assert(s.drop_first()[k] == s[k + 1]);
        }
        lemma_remove_path_at(s.drop_first(), path, i - 1);
        assert(remove_path(s, path) =~= s.remove(i));
    }
}

/// When no entry carries `path`, removing it changes nothing.
proof fn lemma_remove_path_absent(s: Seq<CacheEntry>, path: Seq<char>)
    requires
        forall|k: int| 0 <= k < s.len() ==> (#[trigger] s[k]).path@ != path,
    ensures
        remove_path(s, path) =~= s,
    decreases s.len(),
{
    if s.len() > 0 {
        assert forall|k: int| 0 <= k < s.drop_first().len() implies (
        #[trigger] s.drop_first()[k]).path@ != path by {
            assert(s.drop_first()[k] == s[k + 1]);
        }
        lemma_remove_path_absent(s.drop_first(), path);
        assert(seq![s[0]] + remove_path(s.drop_first(), path) =~= s);
    }
}

/// When entry `i` is the first under `path`, lookup finds it.
pub proof fn lemma_lookup_at(s: Seq<CacheEntry>, path: Seq<char>, i: int)
    requires
        0 <= i < s.len(),
        s[i].path@ == path,
        forall|k: int| 0 <= k < i ==> (#[trigger] s[k]).path@ != path,
    ensures
        cache_lookup(s, path) == Some((s[i].data@, s[i].mime@)),
    decreases i,
{
    if i == 0 {
    } else {
        assert(s.drop_first()[i - 1] == s[i]);
        assert forall|k: int| 0 <= k < i - 1 implies (#[trigger] s.drop_first()[k]).path@
            != path by {
            assert(s.drop_first()[k] == s[k + 1]);
        }
        lemma_lookup_at(s.drop_first(), path, i - 1);
    }
}

/// A path no entry carries is not found.
pub proof fn lemma_lookup_absent(s: Seq<CacheEntry>, path: Seq<char>)
    requires
        forall|k: int| 0 <= k < s.len() ==> (#[trigger] s[k]).path@ != path,
    ensures
        cache_lookup(s, path) is None,
    decreases s.len(),
{
    if s.len() > 0 {
        assert forall|k: int| 0 <= k < s.drop_first().len() implies (
        #[trigger] s.drop_first()[k]).path@ != path by {
            assert(s.drop_first()[k] == s[k + 1]);
        }
        lemma_lookup_absent(s.drop_first(), path);
    }
}

/// Moving entry `i` to the end keeps paths unique, keeps the byte
/// total, and leaves every lookup as it was.
proof fn lemma_touch(pre: Seq<CacheEntry>, i: int)
    requires
        0 <= i < pre.len(),
        paths_unique(pre),
    ensures
        paths_unique(pre.remove(i).push(pre[i])),
        used_of(pre.remove(i).push(pre[i])) == used_of(pre),
        forall|p: Seq<char>|
            #[trigger] cache_lookup(pre.remove(i).push(pre[i]), p) == cache_lookup(pre, p),
{
    let post = pre.remove(i).push(pre[i]);
    lemma_used_remove(pre, i);
    lemma_used_push(pre.remove(i), pre[i]);
    assert forall|a: int, b: int| 0 <= a < b < post.len() implies (#[trigger] post[a]).path@ != (
    #[trigger] post[b]).path@ by {
        let pa = if a < i {
            a
        } else {
            a + 1
        };
        assert(post[a] == pre[pa]);
        if b < post.len() - 1 {
            let pb = if b < i {
                b
            } else {
                b + 1
            };
            assert(post[b] == pre[pb]);
        } else {
            assert(post[b] == pre[i]);
            assert(pa != i);
        }
    }
    assert forall|p: Seq<char>| #[trigger] cache_lookup(post, p) == cache_lookup(pre, p) by {
        if exists|j: int| 0 <= j < pre.len() && (#[trigger] pre[j]).path@ == p {
            let j = choose|j: int| 0 <= j < pre.len() && (#[trigger] pre[j]).path@ == p;
            assert forall|k: int| 0 <= k < j implies (#[trigger] pre[k]).path@ != p by {
                assert(pre[k].path@ != pre[j].path@);
            }
            lemma_lookup_at(pre, p, j);
            if j == i {
                assert(post[post.len() - 1] == pre[i]);
                assert forall|k: int| 0 <= k < post.len() - 1 implies (#[trigger] post[k]).path@
                    != p by {
                    let pk = if k < i {
                        k
                    } else {
                        k + 1
                    };
                    assert(post[k] == pre[pk]);
                    assert(pre[pk].path@ != pre[i].path@);
                }
                lemma_lookup_at(post, p, post.len() - 1);
            } else {
                let nj = if j < i {
                    j
                } else {
                    j - 1
                };
                assert(post[nj] == pre[j]);
                assert forall|k: int| 0 <= k < nj implies (#[trigger] post[k]).path@ != p by {
                    let pk = if k < i {
                        k
                    } else {
                        k + 1
                    };
                    assert(post[k] == pre[pk]);
                    assert(pk != j);
                    assert(pre[pk].path@ != pre[j].path@);
                }
                lemma_lookup_at(post, p, nj);
            }
        } else {
            lemma_lookup_absent(pre, p);
            assert forall|k: int| 0 <= k < post.len() implies (#[trigger] post[k]).path@ != p by {
                if k < post.len() - 1 {
                    let pk = if k < i {
                        k
                    } else {
                        k + 1
                    };
                    assert(post[k] == pre[pk]);
                } else {
                    assert(post[k] == pre[i]);
                }
            }
            lemma_lookup_absent(post, p);
        }
    }
}

/// The index of the entry stored under `path`, if any.
fn find_path_index(entries: &Vec<CacheEntry>, path: &str) -> (r: Option<usize>)
    ensures
        match r {
            Some(i) => i < entries@.len() && entries@[i as int].path@ == path@ && forall|k: int|
                0 <= k < i ==> (#[trigger] entries@[k]).path@ != path@,
            None => forall|k: int|
                0 <= k < entries@.len() ==> (#[trigger] entries@[k]).path@ != path@,
        },
{
    let mut i: usize = 0;
    while i < entries.len()
        invariant
            0 <= i <= entries@.len(),
            forall|k: int| 0 <= k < i ==> (#[trigger] entries@[k]).path@ != path@,
        decreases entries@.len() - i,
    {
        if str_eq(&entries[i].path, path) {
            return Some(i);
        }
        i += 1;
    }
    None
}

impl Cache {
    /// The cache never holds more bytes than its limit allows, and its
    /// paths are unique.
    pub open spec fn wf(&self) -> bool {
        &&& used_of(self.entries@) <= self.limit
        &&& paths_unique(self.entries@)
    }

    /// An empty cache with the given byte budget.
    pub fn new(limit: u64) -> (r: Cache)
        ensures
            r.wf(),
            r.limit == limit,
            r.entries@ =~= Seq::<CacheEntry>::empty(),
    {
        Cache { entries: Vec::new(), limit: limit }
    }

    /// The bytes currently held; never above the limit.
    pub fn used(&self) -> (r: u64)
        requires
            self.wf(),
        ensures
            r == used_of(self.entries@),
            r <= self.limit,
    {
        let mut sum: u64 = 0;
        let mut i: usize = 0;
        proof {
            assert(self.entries@.skip(0) =~= self.entries@);
            lemma_used_nonneg(self.entries@);
        }
        while i < self.entries.len()
            invariant
                self.wf(),
                0 <= i <= self.entries@.len(),
                used_of(self.entries@) == sum + used_of(self.entries@.skip(i as int)),
                sum >= 0,
            decreases self.entries@.len() - i,
        {
            proof {
                assert(self.entries@.skip(i as int)[0] == self.entries@[i as int]);
                assert(self.entries@.skip(i as int).drop_first() =~= self.entries@.skip(i + 1));
                lemma_used_nonneg(self.entries@.skip(i + 1));
            }
            sum = sum + self.entries[i].data.len() as u64;
            i += 1;
        }
        proof {
            assert(self.entries@.skip(self.entries@.len() as int) =~= Seq::<CacheEntry>::empty());
        }
        sum
    }

    /// Reads the entry under `path` and marks it most recently used: a
    /// hit moves its entry to the end of the row, so the front stays the
    /// least recently used.  What each path answers is untouched, and so
    /// is the byte total.
    pub fn get(&mut self, path: &str) -> (r: Option<(Vec<u8>, String)>)
        requires
            old(self).wf(),
        ensures
            final(self).wf(),
            final(self).limit == old(self).limit,
            match r {
                Some(dm) => cache_lookup(old(self).entries@, path@) == Some((dm.0@, dm.1@)) && (
                exists|i: int|
                    0 <= i < old(self).entries@.len() && (#[trigger] old(self).entries@[i]).path@
                        == path@ && final(self).entries@ == old(self).entries@.remove(i).push(
                        old(self).entries@[i],
                    )),
                None => cache_lookup(old(self).entries@, path@) is None && *final(self) == *old(
                    self,
                ),
            },
            forall|p: Seq<char>|
                #[trigger] cache_lookup(final(self).entries@, p) == cache_lookup(
                    old(self).entries@,
                    p,
                ),
            used_of(final(self).entries@) == used_of(old(self).entries@),
    {
        let ghost pre = self.entries@;
        match find_path_index(&self.entries, path) {
            None => {
                proof {
                    lemma_lookup_absent(pre, path@);
                }
                None
            },
            Some(i) => {
                proof {
                    lemma_lookup_at(pre, path@, i as int);
                }
                let e = self.entries.remove(i);
                let out_data = clone_bytes(&e.data);
                let out_mime = e.mime.clone();
                self.entries.push(e);
                proof {
                    assert(self.entries@ =~= pre.remove(i as int).push(pre[i as int]));
                    lemma_touch(pre, i as int);
                }
                Some((out_data, out_mime))
            },
        }
    }

    /// Stores `data` under `path`.  An item larger than the whole limit
    /// is refused; otherwise any old entry under the same path goes
    /// away, the oldest entries are evicted until the item fits, and
    /// the item is appended as most recently used.
    pub fn set(&mut self, path: &str, data: Vec<u8>, mime: String)
        requires
            old(self).wf(),
        ensures
            final(self).wf(),
            final(self).limit == old(self).limit,
            data@.len() > old(self).limit ==> final(self).entries@ == old(self).entries@,
            data@.len() <= old(self).limit ==> set_shape(
                old(self).entries@,
                final(self).entries@,
                old(self).limit,
                path@,
                data@,
                mime@,
            ) && cache_lookup(final(self).entries@, path@) == Some((data@, mime@)),
    {
        let ghost pre = self.entries@;
        if data.len() as u64 > self.limit {
            return ;
        }
        let budget = self.limit - data.len() as u64;

        // Drop any entry already stored under this path.
        match find_path_index(&self.entries, path) {
            Some(i) => {
                proof {
                    lemma_remove_path_at(pre, path@, i as int);
                }
                self.entries.remove(i);
            },
            None => {
                proof {
                    lemma_remove_path_absent(pre, path@);
                }
            },
        }
        let ghost removed = remove_path(pre, path@);
        proof {
            assert(self.entries@ =~= removed);
            lemma_remove_path_wf(pre, path@);
            lemma_used_nonneg(removed);
        }

        // Evict oldest-first until the new item fits.
        while self.used_internal() > budget
            invariant
                self.limit == old(self).limit,
                budget == self.limit - data@.len(),
                paths_unique(self.entries@),
                used_of(self.entries@) <= used_of(old(self).entries@),
                used_of(old(self).entries@) <= self.limit,
                forall|k: int|
                    0 <= k < self.entries@.len() ==> (#[trigger] self.entries@[k]).path@ != path@,
                drop_while_over(removed, budget as int) == drop_while_over(
                    self.entries@,
                    budget as int,
                ),
            decreases self.entries@.len(),
        {
            proof {
                lemma_used_nonneg(self.entries@);
                assert(self.entries@.len() > 0);
                assert(drop_while_over(self.entries@, budget as int) == drop_while_over(
                    self.entries@.drop_first(),
                    budget as int,
                ));
                lemma_unique_drop_first(self.entries@);
                assert forall|k: int|
                    0 <= k < self.entries@.drop_first().len() implies (
                #[trigger] self.entries@.drop_first()[k]).path@ != path@ by {
                    assert(self.entries@.drop_first()[k] == self.entries@[k + 1]);
                }
                lemma_used_nonneg(self.entries@.drop_first());
            }
            let ghost before = self.entries@;
            self.entries.remove(0);
            proof {
                assert(self.entries@ =~= before.drop_first());
            }
        }
        let ghost kept = self.entries@;
        proof {
            lemma_used_nonneg(kept);
            assert(used_of(kept) <= budget);
            assert(kept == drop_while_over(removed, budget as int));
        }

        // Append the new entry as the most recent.
        let entry = CacheEntry { path: String::from_str(path), data: data, mime: mime };
        self.entries.push(entry);
        proof {
            let post = self.entries@;
            assert(post =~= kept.push(post.last()));
            lemma_used_push(kept, post.last());
            assert forall|a: int, b: int| 0 <= a < b < post.len() implies (
            #[trigger] post[a]).path@ != (#[trigger] post[b]).path@ by {
                if b < post.len() - 1 {
                    assert(post[a] == kept[a] && post[b] == kept[b]);
                } else {
                    assert(post[a] == kept[a]);
                }
            }
            assert forall|k: int| 0 <= k < post.len() - 1 implies (#[trigger] post[k]).path@
                != path@ by {
                assert(post[k] == kept[k]);
            }
            lemma_lookup_at(post, path@, post.len() - 1);
            assert(post.take(kept.len() as int) =~= kept);
        }
    }

    /// Drops the entry stored under `path`, if any.
    pub fn invalidate(&mut self, path: &str)
        requires
            old(self).wf(),
        ensures
            final(self).wf(),
            final(self).limit == old(self).limit,
            final(self).entries@ == remove_path(old(self).entries@, path@),
    {
        let ghost pre = self.entries@;
        match find_path_index(&self.entries, path) {
            Some(i) => {
                proof {
                    lemma_remove_path_at(pre, path@, i as int);
                    lemma_remove_path_wf(pre, path@);
                }
                self.entries.remove(i);
                proof {
                    assert(self.entries@ =~= remove_path(pre, path@));
                }
            },
            None => {
                proof {
                    lemma_remove_path_absent(pre, path@);
                }
            },
        }
    }

    /// The byte total, used while evicting.
    fn used_internal(&self) -> (r: u64)
        requires
            used_of(self.entries@) <= u64::MAX,
        ensures
            r == used_of(self.entries@),
    {
        let mut sum: u64 = 0;
        let mut i: usize = 0;
        proof {
            assert(self.entries@.skip(0) =~= self.entries@);
            lemma_used_nonneg(self.entries@);
        }
        while i < self.entries.len()
            invariant
                used_of(self.entries@) <= u64::MAX,
                0 <= i <= self.entries@.len(),
                used_of(self.entries@) == sum + used_of(self.entries@.skip(i as int)),
                sum >= 0,
            decreases self.entries@.len() - i,
        {
            proof {
                assert(self.entries@.skip(i as int)[0] == self.entries@[i as int]);
                assert(self.entries@.skip(i as int).drop_first() =~= self.entries@.skip(i + 1));
                lemma_used_nonneg(self.entries@.skip(i + 1));
            }
            sum = sum + self.entries[i].data.len() as u64;
            i += 1;
        }
        proof {
            assert(self.entries@.skip(self.entries@.len() as int) =~= Seq::<CacheEntry>::empty());
        }
        sum
    }
}

/// Copies a byte vector.
pub fn clone_bytes(v: &Vec<u8>) -> (r: Vec<u8>)
    ensures
        r@ == v@,
{
    let mut out: Vec<u8> = Vec::new();
    let mut i: usize = 0;
    while i < v.len()
        invariant
            0 <= i <= v@.len(),
            out@ =~= v@.take(i as int),
        decreases v@.len() - i,
    {
        out.push(v[i]);
        proof {
            assert(out@ =~= v@.take(i + 1));
        }
        i += 1;
    }
    proof {
        assert(v@.take(v@.len() as int) =~= v@);
    }
    out
}

} // verus!
