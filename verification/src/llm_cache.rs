//! Response cache for model calls: a successful answer to a request is kept
//! and replayed when the same request comes again.
//!
//! A request is identified by the model, the messages, the tools offered and
//! the reasoning effort; any change makes it a different request. At most
//! [`MAX_CACHE_ENTRIES`] answers are kept: a lookup that finds an answer
//! renews it, and the least recently used answer goes first.
use vstd::prelude::*;
use crate::types::{
    defs_eq, defs_view, events_view, messages_eq, msgs_view, opt_str_eq, opt_view, EventView,
    Message, MessageView, ProviderEvent, ToolDefView, ToolDefinition,
};
use crate::text::str_eq;

verus! {

broadcast use vstd::seq_lib::group_seq_properties;

/// Most answers the cache holds.
pub const MAX_CACHE_ENTRIES: usize = 128;

/// What identifies a request.
pub struct CacheKey {
    pub model: Seq<char>,
    pub messages: Seq<MessageView>,
    pub tools: Seq<ToolDefView>,
    pub effort: Option<Seq<char>>,
}

/// The key of a request.
pub open spec fn key_of(
    model: Seq<char>,
    messages: Seq<Message>,
    tools: Seq<ToolDefinition>,
    effort: Option<Seq<char>>,
) -> CacheKey {
    CacheKey { model, messages: msgs_view(messages), tools: defs_view(tools), effort }
}

/// Model of the cache: stored answers from least to most recently used.
pub struct CacheView {
    pub entries: Seq<(CacheKey, Seq<EventView>)>,
    pub disabled: bool,
}

/// One stored answer.
struct CacheEntry {
    model: String,
    messages: Vec<Message>,
    tools: Vec<ToolDefinition>,
    effort: Option<String>,
    events: Vec<ProviderEvent>,
}

impl CacheEntry {
    spec fn key(&self) -> CacheKey {
        CacheKey {
            model: self.model@,
            messages: msgs_view(self.messages@),
            tools: defs_view(self.tools@),
            effort: opt_view(self.effort),
        }
    }
}

spec fn entries_view(v: Seq<CacheEntry>) -> Seq<(CacheKey, Seq<EventView>)> {
    v.map_values(|e: CacheEntry| (e.key(), events_view(e.events@)))
}

/// In-memory cache of model answers.
pub struct LlmCache {
    entries: Vec<CacheEntry>,
    disabled: bool,
}

impl View for LlmCache {
    type V = CacheView;

    closed spec fn view(&self) -> CacheView {
        CacheView { entries: entries_view(self.entries@), disabled: self.disabled }
    }
}

/// Position of the first stored answer for `k`.
pub open spec fn find_key(es: Seq<(CacheKey, Seq<EventView>)>, k: CacheKey) -> Option<int>
    decreases es.len(),
{
    if es.len() == 0 {
        None
    } else {
        match find_key(es.drop_last(), k) {
            Some(i) => Some(i),
            None => if es.last().0 == k {
                Some(es.len() - 1)
            } else {
                None
            },
        }
    }
}

/// The answer stored for `k`, if any.
pub open spec fn lookup(es: Seq<(CacheKey, Seq<EventView>)>, k: CacheKey) -> Option<Seq<EventView>> {
    match find_key(es, k) {
        Some(i) => Some(es[i].1),
        None => None,
    }
}

/// The cache is consistent: no request is stored twice and the size bound holds.
pub open spec fn cache_wf(c: CacheView) -> bool {
    &&& c.entries.len() <= MAX_CACHE_ENTRIES
    &&& forall|i: int, j: int|
        0 <= i < j < c.entries.len() ==> (#[trigger] c.entries[i]).0 != (#[trigger] c.entries[j]).0
}

/// Whether an answer reports an error.
pub open spec fn has_error(ev: Seq<EventView>) -> bool {
    exists|i: int| 0 <= i < ev.len() && (#[trigger] ev[i]) is Error
}

/// Whether an answer is worth storing: it is not empty and reports no error.
pub open spec fn cacheable(ev: Seq<EventView>) -> bool {
    ev.len() > 0 && !has_error(ev)
}

/// The stored answers after `ev` was stored for `k`: an older answer for `k`
/// is dropped, the new one becomes the most recently used, and the least
/// recently used is evicted when the bound is exceeded.
pub open spec fn stored(es: Seq<(CacheKey, Seq<EventView>)>, k: CacheKey, ev: Seq<EventView>) -> Seq<
    (CacheKey, Seq<EventView>),
> {
    let rest = match find_key(es, k) {
        Some(i) => es.remove(i),
        None => es,
    };
    let s = rest.push((k, ev));
    if s.len() > MAX_CACHE_ENTRIES {
        s.drop_first()
    } else {
        s
    }
}

/// The stored answers after a lookup of `k`: the answer found, if any,
/// becomes the most recently used; the others keep their order.
pub open spec fn renewed(es: Seq<(CacheKey, Seq<EventView>)>, k: CacheKey) -> Seq<(CacheKey, Seq<EventView>)> {
    match find_key(es, k) {
        Some(i) => es.remove(i).push(es[i]),
        None => es,
    }
}

/// A copy of an answer.
fn copy_events(v: &Vec<ProviderEvent>) -> (r: Vec<ProviderEvent>)
    ensures
        events_view(r@) == events_view(v@),
{
    let mut r: Vec<ProviderEvent> = Vec::new();
    let mut i: usize = 0;
    while i < v.len()
        invariant
            i <= v.len(),
            events_view(r@) == events_view(v@).take(i as int),
        decreases v.len() - i,
    {
        let ghost before = r@;
        r.push(v[i].duplicate());
        assert(events_view(r@) =~= events_view(before).push(v@[i as int]@));
        assert(events_view(v@).take(i + 1) =~= events_view(v@).take(i as int).push(v@[i as int]@));
        i = i + 1;
    }
    assert(events_view(v@).take(v.len() as int) =~= events_view(v@));
    r
}

/// A copy of a list of messages.
fn copy_messages(v: &[Message]) -> (r: Vec<Message>)
    ensures
        msgs_view(r@) == msgs_view(v@),
{
    let mut r: Vec<Message> = Vec::new();
    let mut i: usize = 0;
    while i < v.len()
        invariant
            i <= v.len(),
            msgs_view(r@) == msgs_view(v@).take(i as int),
        decreases v.len() - i,
    {
        let ghost before = r@;
        r.push(v[i].duplicate());
        assert(msgs_view(r@) =~= msgs_view(before).push(v@[i as int]@));
        assert(msgs_view(v@).take(i + 1) =~= msgs_view(v@).take(i as int).push(v@[i as int]@));
        i = i + 1;
    }
    assert(msgs_view(v@).take(v.len() as int) =~= msgs_view(v@));
    r
}

/// A copy of a list of tool definitions.
fn copy_defs(v: &[ToolDefinition]) -> (r: Vec<ToolDefinition>)
    ensures
        defs_view(r@) == defs_view(v@),
{
    let mut r: Vec<ToolDefinition> = Vec::new();
    let mut i: usize = 0;
    while i < v.len()
        invariant
            i <= v.len(),
            defs_view(r@) == defs_view(v@).take(i as int),
        decreases v.len() - i,
    {
        let ghost before = r@;
        r.push(v[i].duplicate());
        assert(defs_view(r@) =~= defs_view(before).push(v@[i as int]@));
        assert(defs_view(v@).take(i + 1) =~= defs_view(v@).take(i as int).push(v@[i as int]@));
        i = i + 1;
    }
    assert(defs_view(v@).take(v.len() as int) =~= defs_view(v@));
    r
}

/// A copy of an optional string slice.
fn opt_owned(o: Option<&str>) -> (r: Option<String>)
    ensures
        opt_view(r) == match o {
            Some(s) => Some(s@),
            None => None,
        },
{
    match o {
        Some(s) => Some(crate::text::to_string(s)),
        None => None,
    }
}

/// The position of the stored answer for the request, scanning from the oldest.
fn position(
    entries: &Vec<CacheEntry>,
    model: &str,
    messages: &[Message],
    tools: &[ToolDefinition],
    effort: &Option<String>,
) -> (r: Option<usize>)
    ensures
        r matches Some(i) ==> i < entries.len(),
        match r {
            Some(i) => find_key(entries_view(entries@), key_of(model@, messages@, tools@, opt_view(*effort))) == Some(i as int),
            None => find_key(entries_view(entries@), key_of(model@, messages@, tools@, opt_view(*effort))) is None,
        },
{
    let ghost es = entries_view(entries@);
    let ghost k = key_of(model@, messages@, tools@, opt_view(*effort));
    let mut i: usize = 0;
    while i < entries.len()
        invariant
            i <= entries.len(),
            es == entries_view(entries@),
            k == key_of(model@, messages@, tools@, opt_view(*effort)),
            find_key(es.take(i as int), k) is None,
        decreases entries.len() - i,
    {
        let e = &entries[i];
        proof {
            assert(es.take(i + 1).drop_last() =~= es.take(i as int));
        }
        if str_eq(e.model.as_str(), model) && messages_eq(e.messages.as_slice(), messages)
            && defs_eq(e.tools.as_slice(), tools) && opt_str_eq(&e.effort, effort) {
            proof {
                assert(es[i as int].0 == k);
                lemma_find_first(es, k, i as int);
            }
            return Some(i);
        }
        i = i + 1;
    }
    assert(es.take(i as int) =~= es);
    None
}

impl LlmCache {
    /// An empty cache that stores answers.
    pub fn new() -> (c: LlmCache)
        ensures
            c@.entries == Seq::<(CacheKey, Seq<EventView>)>::empty(),
            !c@.disabled,
            cache_wf(c@),
    {
        LlmCache::with_disabled(false)
    }

    /// An empty cache; a disabled one never stores nor finds anything.
    pub fn with_disabled(disabled: bool) -> (c: LlmCache)
        ensures
            c@.entries == Seq::<(CacheKey, Seq<EventView>)>::empty(),
            c@.disabled == disabled,
            cache_wf(c@),
    {
        let c = LlmCache { entries: Vec::new(), disabled };
        assert(entries_view(c.entries@) =~= Seq::<(CacheKey, Seq<EventView>)>::empty());
        c
    }

    /// The stored answer to the request, if any; an answer found becomes the
    /// most recently used.
    pub fn get(
        &mut self,
        model: &str,
        messages: &[Message],
        tools: &[ToolDefinition],
        reasoning_effort: Option<&str>,
    ) -> (r: Option<Vec<ProviderEvent>>)
        requires
            cache_wf(old(self)@),
        ensures
            cache_wf(final(self)@),
            final(self)@.disabled == old(self)@.disabled,
            match r {
                Some(ev) => !old(self)@.disabled && lookup(
                    old(self)@.entries,
                    key_of(model@, messages@, tools@, match reasoning_effort {
                        Some(s) => Some(s@),
                        None => None,
                    }),
                ) == Some(events_view(ev@)),
                None => old(self)@.disabled || lookup(
                    old(self)@.entries,
                    key_of(model@, messages@, tools@, match reasoning_effort {
                        Some(s) => Some(s@),
                        None => None,
                    }),
                ) is None,
            },
            final(self)@.entries == if old(self)@.disabled {
                old(self)@.entries
            } else {
                renewed(
                    old(self)@.entries,
                    key_of(model@, messages@, tools@, match reasoning_effort {
                        Some(s) => Some(s@),
                        None => None,
                    }),
                )
            },
    {
        if self.disabled {
            return None;
        }
        let ghost es = entries_view(self.entries@);
        let ghost k = key_of(model@, messages@, tools@, match reasoning_effort {
            Some(s) => Some(s@),
            None => None,
        });
        let effort = opt_owned(reasoning_effort);
        match position(&self.entries, model, messages, tools, &effort) {
            Some(i) => {
                let found = copy_events(&self.entries[i].events);
                let e = self.entries.remove(i);
                assert(entries_view(self.entries@) =~= es.remove(i as int));
                let ghost rest = entries_view(self.entries@);
                self.entries.push(e);
                assert(entries_view(self.entries@) =~= rest.push(es[i as int]));
                proof {
                    lemma_renewed_wf(es, k);
                }
                Some(found)
            },
            None => None,
        }
    }

    /// Store `events` as the answer to the request, unless the cache is disabled
    /// or the answer is empty or reports an error.
    pub fn put(
        &mut self,
        model: &str,
        messages: &[Message],
        tools: &[ToolDefinition],
        reasoning_effort: Option<&str>,
        events: Vec<ProviderEvent>,
    )
        requires
            cache_wf(old(self)@),
        ensures
            cache_wf(final(self)@),
            final(self)@.disabled == old(self)@.disabled,
            final(self)@.entries == if old(self)@.disabled || !cacheable(events_view(events@)) {
                old(self)@.entries
            } else {
                stored(
                    old(self)@.entries,
                    key_of(model@, messages@, tools@, match reasoning_effort {
                        Some(s) => Some(s@),
                        None => None,
                    }),
                    events_view(events@),
                )
            },
    {
        if self.disabled {
            return ;
        }
        let mut i: usize = 0;
        while i < events.len()
            invariant
                i <= events.len(),
                cache_wf(self@),
                forall|j: int| 0 <= j < i ==> !(#[trigger] events_view(events@)[j] is Error),
            decreases events.len() - i,
        {
            match &events[i] {
                ProviderEvent::Error(_) => {
                    assert(events_view(events@)[i as int] is Error);
                    return ;
                },
                _ => {},
            }
            i = i + 1;
        }
        if events.len() == 0 {
            return ;
        }
        let ghost es = entries_view(self.entries@);
        let ghost k = key_of(model@, messages@, tools@, match reasoning_effort {
            Some(s) => Some(s@),
            None => None,
        });
        let effort = opt_owned(reasoning_effort);
        match position(&self.entries, model, messages, tools, &effort) {
            Some(p) => {
                self.entries.remove(p);
                assert(entries_view(self.entries@) =~= es.remove(p as int));
            },
            None => {},
        }
        let ghost rest = entries_view(self.entries@);
        let entry = CacheEntry {
            model: crate::text::to_string(model),
            messages: copy_messages(messages),
            tools: copy_defs(tools),
            effort,
            events,
        };
        self.entries.push(entry);
        assert(entries_view(self.entries@) =~= rest.push((k, events_view(events@))));
        if self.entries.len() > MAX_CACHE_ENTRIES {
            let ghost full = entries_view(self.entries@);
            self.entries.remove(0);
            assert(entries_view(self.entries@) =~= full.drop_first());
        }
        proof {
            lemma_stored_wf(es, k, events_view(events@));
        }
    }
}

impl Default for LlmCache {
    fn default() -> (c: Self)
        ensures
            c@.entries == Seq::<(CacheKey, Seq<EventView>)>::empty(),
            !c@.disabled,
    {
        LlmCache::new()
    }
}

/// An entry found at `i` with no earlier one for the key is the first for the key.
proof fn lemma_find_first(es: Seq<(CacheKey, Seq<EventView>)>, k: CacheKey, i: int)
    requires
        0 <= i < es.len(),
        es[i].0 == k,
        find_key(es.take(i), k) is None,
    ensures
        find_key(es, k) == Some(i),
    decreases es.len(),
{
    if es.len() - 1 == i {
        assert(es.drop_last() =~= es.take(i));
    } else {
        assert(es.drop_last().take(i) =~= es.take(i));
        lemma_find_first(es.drop_last(), k, i);
    }
}

/// `find_key` finds exactly the entries that hold the key.
pub proof fn lemma_find_key(es: Seq<(CacheKey, Seq<EventView>)>, k: CacheKey)
    ensures
        match find_key(es, k) {
            Some(i) => 0 <= i < es.len() && es[i].0 == k && forall|j: int|
                0 <= j < i ==> (#[trigger] es[j]).0 != k,
            None => forall|j: int| 0 <= j < es.len() ==> (#[trigger] es[j]).0 != k,
        },
    decreases es.len(),
{
    if es.len() > 0 {
        let d = es.drop_last();
        lemma_find_key(d, k);
        match find_key(d, k) {
            Some(i) => {
                assert forall|j: int| 0 <= j < i implies (#[trigger] es[j]).0 != k by {
                    assert(es[j] == d[j]);
                }
                assert(es[i] == d[i]);
            },
            None => {
                assert forall|j: int| 0 <= j < es.len() - 1 implies (#[trigger] es[j]).0 != k by {
                    assert(es[j] == d[j]);
                }
            },
        }
    }
}

/// Storing an answer keeps the cache consistent.
pub proof fn lemma_stored_wf(es: Seq<(CacheKey, Seq<EventView>)>, k: CacheKey, ev: Seq<EventView>)
    requires
        cache_wf(CacheView { entries: es, disabled: false }),
    ensures
        cache_wf(CacheView { entries: stored(es, k, ev), disabled: false }),
{
    lemma_find_key(es, k);
    let rest = match find_key(es, k) {
        Some(i) => es.remove(i),
        None => es,
    };
    assert(forall|j: int| 0 <= j < rest.len() ==> (#[trigger] rest[j]).0 != k) by {
        match find_key(es, k) {
            Some(i) => {
                assert forall|j: int| 0 <= j < rest.len() implies (#[trigger] rest[j]).0 != k by {
                    if j < i {
                        assert(rest[j] == es[j]);
                    } else {
                        assert(rest[j] == es[j + 1]);
                    }
                }
            },
            None => {},
        }
    }
    let s = rest.push((k, ev));
    assert(forall|i: int, j: int| 0 <= i < j < s.len() ==> (#[trigger] s[i]).0 != (#[trigger] s[j]).0) by {
        assert forall|i: int, j: int| 0 <= i < j < s.len() implies (#[trigger] s[i]).0 != (
        #[trigger] s[j]).0 by {
            if j == s.len() - 1 {
                assert(s[i] == rest[i]);
            } else {
                match find_key(es, k) {
                    Some(x) => {
                        let a = if i < x { i } else { i + 1 };
                        let b = if j < x { j } else { j + 1 };
                        assert(s[i] == es[a]);
                        assert(s[j] == es[b]);
                    },
                    None => {},
                }
            }
        }
    }
}

/// An answer just stored is what the cache gives back for the same request.
pub proof fn lemma_get_after_put(es: Seq<(CacheKey, Seq<EventView>)>, k: CacheKey, ev: Seq<EventView>)
    requires
        cache_wf(CacheView { entries: es, disabled: false }),
    ensures
        lookup(stored(es, k, ev), k) == Some(ev),
{
    lemma_find_key(es, k);
    lemma_stored_wf(es, k, ev);
    let t = stored(es, k, ev);
    lemma_find_key(t, k);
    assert(t.last() == (k, ev));
    assert(t[t.len() - 1].0 == k);
}

/// Storing an answer for one request makes no other request found: a
/// request never stored before still finds nothing.
pub proof fn lemma_other_request_misses(
    es: Seq<(CacheKey, Seq<EventView>)>,
    k: CacheKey,
    k2: CacheKey,
    ev: Seq<EventView>,
)
    requires
        k2 != k,
        lookup(es, k2) is None,
    ensures
        lookup(stored(es, k, ev), k2) is None,
{
    lemma_find_key(es, k2);
    lemma_find_key(es, k);
    let rest = match find_key(es, k) {
        Some(i) => es.remove(i),
        None => es,
    };
    let s = rest.push((k, ev));
    let t = stored(es, k, ev);
    lemma_find_key(t, k2);
    if let Some(x) = find_key(t, k2) {
        let y: int = if s.len() > MAX_CACHE_ENTRIES { x + 1 } else { x };
        assert(t[x] == s[y]);
        assert(y != s.len() - 1);
        match find_key(es, k) {
            Some(i) => {
                if y < i {
                    assert(s[y] == es[y]);
                } else {
                    assert(s[y] == es[y + 1]);
                }
            },
            None => {
                assert(s[y] == es[y]);
            },
        }
        assert(false);
    }
}

/// A lookup keeps the cache consistent: it reorders the stored answers only.
pub proof fn lemma_renewed_wf(es: Seq<(CacheKey, Seq<EventView>)>, k: CacheKey)
    requires
        cache_wf(CacheView { entries: es, disabled: false }),
    ensures
        cache_wf(CacheView { entries: renewed(es, k), disabled: false }),
        renewed(es, k).len() == es.len(),
{
    lemma_find_key(es, k);
    if let Some(i) = find_key(es, k) {
        lemma_stored_wf(es, k, es[i].1);
        assert(renewed(es, k) =~= stored(es, k, es[i].1));
    }
}

/// The cache is least recently used: an answer just found by a lookup is
/// still there after the next answer for another request is stored, even
/// when the cache is full.
pub proof fn lemma_hit_survives_store(
    es: Seq<(CacheKey, Seq<EventView>)>,
    k: CacheKey,
    k2: CacheKey,
    ev: Seq<EventView>,
)
    requires
        cache_wf(CacheView { entries: es, disabled: false }),
        lookup(es, k) is Some,
        k2 != k,
    ensures
        lookup(stored(renewed(es, k), k2, ev), k) == lookup(es, k),
{
    lemma_find_key(es, k);
    let i = find_key(es, k).unwrap();
    let r = renewed(es, k);
    lemma_renewed_wf(es, k);
    assert(r.last() == es[i]);
    lemma_find_key(r, k2);
    let rest = match find_key(r, k2) {
        Some(j) => r.remove(j),
        None => r,
    };
    let pos: int = match find_key(r, k2) {
        Some(j) => r.len() - 2,
        None => r.len() - 1,
    };
    match find_key(r, k2) {
        Some(j) => {
            assert(j != r.len() - 1);
            assert(rest[pos] == r[r.len() - 1]);
        },
        None => {
            assert(rest[pos] == r[r.len() - 1]);
        },
    }
    let s = rest.push((k2, ev));
    assert(s[pos] == es[i]);
    let t = stored(r, k2, ev);
    let tpos: int = if s.len() > MAX_CACHE_ENTRIES { pos - 1 } else { pos };
    assert(0 <= tpos < t.len() && t[tpos] == es[i]);
    lemma_stored_wf(r, k2, ev);
    lemma_find_key(t, k);
    if let Some(x) = find_key(t, k) {
        if x != tpos {
            assert(t[x].0 == t[tpos].0);
            assert(false);
        }
    }
}

} // verus!
