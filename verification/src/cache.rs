use vstd::prelude::*;

verus! {

broadcast use vstd::string::group_string_axioms;

/// A rendering outcome as text: the SVG, or the diagnostic.
pub type RenderedView = Result<Seq<char>, Seq<char>>;

pub open spec fn rendered_view(r: Result<String, String>) -> RenderedView {
    match r {
        Ok(s) => Ok(s@),
        Err(e) => Err(e@),
    }
}

/// The cache holds more than this many renderings before it is emptied.
pub open spec fn cache_capacity() -> nat {
    96
}

/// The cache after a rendering is stored under a key: emptied first when it holds
/// more than `cache_capacity` renderings, then the key maps to the rendering.
pub open spec fn cache_after_store(m: Map<Seq<char>, RenderedView>, key: Seq<char>, value: RenderedView) -> Map<
    Seq<char>,
    RenderedView,
> {
    if m.len() > cache_capacity() {
        Map::empty().insert(key, value)
    } else {
        m.insert(key, value)
    }
}

/// The map an entry list stands for.
pub open spec fn entries_map(e: Seq<(Seq<char>, RenderedView)>) -> Map<Seq<char>, RenderedView>
    decreases e.len(),
{
    if e.len() == 0 {
        Map::empty()
    } else {
        entries_map(e.drop_last()).insert(e.last().0, e.last().1)
    }
}

/// No key occurs twice.
pub open spec fn keys_distinct(e: Seq<(Seq<char>, RenderedView)>) -> bool {
    forall|i: int, j: int| 0 <= i < j < e.len() ==> #[trigger] e[i].0 != #[trigger] e[j].0
}

pub proof fn lemma_entries_map(e: Seq<(Seq<char>, RenderedView)>)
    requires
        keys_distinct(e),
    ensures
        entries_map(e).dom().finite(),
        entries_map(e).len() == e.len(),
        forall|i: int| 0 <= i < e.len() ==> #[trigger] entries_map(e).contains_key(e[i].0)
            && entries_map(e)[e[i].0] == e[i].1,
        forall|k: Seq<char>| #[trigger] entries_map(e).contains_key(k) ==> exists|i: int|
            0 <= i < e.len() && e[i].0 == k,
    decreases e.len(),
{
    if e.len() > 0 {
        let p = e.drop_last();
        assert(keys_distinct(p));
        lemma_entries_map(p);
        let n = e.len() - 1;
        assert(!entries_map(p).contains_key(e[n].0)) by {
            if entries_map(p).contains_key(e[n].0) {
                let i = choose|i: int| 0 <= i < p.len() && p[i].0 == e[n].0;
                assert(e[i].0 == e[n].0);
            }
        }
        assert forall|i: int| 0 <= i < e.len() implies #[trigger] entries_map(e).contains_key(e[i].0)
            && entries_map(e)[e[i].0] == e[i].1 by {
            if i < n {
                assert(p[i] == e[i]);
                assert(e[i].0 != e[n].0);
            }
        }
        assert forall|k: Seq<char>| #[trigger] entries_map(e).contains_key(k) implies exists|i: int|
            0 <= i < e.len() && e[i].0 == k by {
            if k != e[n].0 {
                let i = choose|i: int| 0 <= i < p.len() && p[i].0 == k;
                assert(e[i].0 == k);
            }
        }
    }
}

/// Renderings already made, by cache key.
pub struct RenderCache {
    entries: Vec<(String, Result<String, String>)>,
}

impl RenderCache {
    pub closed spec fn entry_views(&self) -> Seq<(Seq<char>, RenderedView)> {
        Seq::new(self.entries@.len(), |i: int| (self.entries@[i].0@, rendered_view(self.entries@[i].1)))
    }

    /// The renderings by key.
    pub closed spec fn view(&self) -> Map<Seq<char>, RenderedView> {
        entries_map(self.entry_views())
    }

    /// No key is held twice.
    pub closed spec fn wf(&self) -> bool {
        keys_distinct(self.entry_views())
    }

    /// An empty cache.
    pub fn new() -> (r: Self)
        ensures
            r.wf(),
            r.view() == Map::<Seq<char>, RenderedView>::empty(),
    {
        let r = RenderCache { entries: Vec::new() };
        assert(r.entry_views() =~= Seq::<(Seq<char>, RenderedView)>::empty());
        r
    }

    /// The number of renderings held.
    pub fn len(&self) -> (r: usize)
        requires
            self.wf(),
        ensures
            r == self.view().len(),
            self.view().dom().finite(),
    {
        proof {
            lemma_entries_map(self.entry_views());
        }
        self.entries.len()
    }

    /// The rendering stored under a key, if any.
    pub fn get(&self, key: &String) -> (r: Option<Result<String, String>>)
        requires
            self.wf(),
        ensures
            match r {
                Some(v) => self.view().contains_key(key@) && self.view()[key@] == rendered_view(v),
                None => !self.view().contains_key(key@),
            },
    {
        proof {
            lemma_entries_map(self.entry_views());
        }
        let ghost ev = self.entry_views();
        let mut i: usize = 0;
        while i < self.entries.len()
            invariant
                i <= self.entries.len(),
                ev == self.entry_views(),
                keys_distinct(ev),
                forall|j: int| 0 <= j < i ==> ev[j].0 != key@,
            decreases self.entries.len() - i,
        {
            if self.entries[i].0 == *key {
                proof {
                    lemma_entries_map(ev);
                }
                assert(ev[i as int].0 == key@);
                let v = match &self.entries[i].1 {
                    Ok(s) => Ok(s.clone()),
                    Err(e) => Err(e.clone()),
                };
                assert(rendered_view(v) == ev[i as int].1);
                assert(self.view() == entries_map(ev));
                assert(entries_map(ev).contains_key(ev[i as int].0));
                return Some(v);
            }
            i += 1;
        }
        None
    }

    /// Stores a rendering under a key; a cache holding more than `cache_capacity`
    /// renderings is emptied first.
    pub fn store(&mut self, key: String, value: Result<String, String>)
        requires
            old(self).wf(),
        ensures
            final(self).wf(),
            final(self).view() == cache_after_store(old(self).view(), key@, rendered_view(value)),
    {
        proof {
            lemma_entries_map(self.entry_views());
        }
        let ghost m = self.view();
        let ghost k = key@;
        let ghost v = rendered_view(value);
        if self.entries.len() > 96 {
            self.entries.clear();
            assert(self.entry_views() =~= Seq::<(Seq<char>, RenderedView)>::empty());
        }
        let ghost base = self.view();
        assert(base == if m.len() > cache_capacity() { Map::<Seq<char>, RenderedView>::empty() } else { m });
        let ghost ev = self.entry_views();
        proof {
            lemma_entries_map(ev);
        }
        let mut i: usize = 0;
        while i < self.entries.len()
            invariant
                i <= self.entries.len(),
                ev == self.entry_views(),
                keys_distinct(ev),
                forall|j: int| 0 <= j < i ==> ev[j].0 != k,
                key@ == k,
                v == rendered_view(value),
                m == old(self).view(),
                base == entries_map(ev),
                base == if m.len() > cache_capacity() { Map::<Seq<char>, RenderedView>::empty() } else { m },
            decreases self.entries.len() - i,
        {
            if self.entries[i].0 == key {
                self.entries.set(i, (key, value));
                let ghost nv = self.entry_views();
                assert(nv =~= ev.update(i as int, (k, v)));
                assert forall|a: int, b: int| 0 <= a < b < nv.len() implies #[trigger] nv[a].0 != #[trigger] nv[b].0 by {
                    assert(nv[a].0 == ev[a].0);
                    assert(nv[b].0 == ev[b].0);
                }
                proof {
                    lemma_entries_map(ev);
                    lemma_entries_map(nv);
                }
                assert(self.view() =~= base.insert(k, v)) by {
                    assert forall|t: Seq<char>| #[trigger] self.view().contains_key(t) implies base.insert(k, v).contains_key(t)
                        && self.view()[t] == base.insert(k, v)[t] by {
                        let j = choose|j: int| 0 <= j < nv.len() && nv[j].0 == t;
                        if j != i {
                            assert(nv[j] == ev[j]);
                            assert(ev[j].0 != ev[i as int].0);
                            assert(base.contains_key(ev[j].0));
                        }
                    }
                    assert forall|t: Seq<char>| #[trigger] base.insert(k, v).contains_key(t) implies self.view().contains_key(t) by {
                        if t != k {
                            let j = choose|j: int| 0 <= j < ev.len() && ev[j].0 == t;
                            assert(nv[j].0 == t);
                        } else {
                            assert(nv[i as int].0 == t);
                        }
                    }
                }
                return;
            }
            i += 1;
        }
        self.entries.push((key, value));
        assert(self.entry_views() =~= ev.push((k, v)));
        assert(self.entry_views().drop_last() =~= ev);
    }
}

/// A rendering stored under a key is what a lookup of that key then gives back.
pub proof fn lemma_stored_read_back(m: Map<Seq<char>, RenderedView>, key: Seq<char>, value: RenderedView)
    ensures
        cache_after_store(m, key, value).contains_key(key),
        cache_after_store(m, key, value)[key] == value,
{
}

/// Storing keeps every other rendering while the cache is not over capacity.
pub proof fn lemma_store_keeps_others(
    m: Map<Seq<char>, RenderedView>,
    key: Seq<char>,
    value: RenderedView,
    other: Seq<char>,
)
    requires
        m.len() <= cache_capacity(),
        other != key,
    ensures
        cache_after_store(m, key, value).contains_key(other) == m.contains_key(other),
        m.contains_key(other) ==> cache_after_store(m, key, value)[other] == m[other],
{
}

} // verus!
