//! Three-tier memory: `core` (always in the system prompt), `mino` (recent
//! notes, at most fifty) and `short` (recent sessions, at most twenty).
//!
//! The memory of a workspace is one JSON file; loading and saving it is the
//! caller's part, after each change.
use vstd::prelude::*;
use crate::text::{
    contains, dec, dec_string, join, join_strings, lowercase, push_str, str_eq, strs_view,
    to_lowercase, to_string, contains_str, hex,
};
use crate::session::{join_path, path_join, std_hash, workspace_hash};

verus! {

broadcast use vstd::seq_lib::group_seq_properties;

/// Most entries the `short` tier keeps.
pub const MAX_SHORT: usize = 20;

/// Most entries the `mino` tier keeps.
pub const MAX_MINO: usize = 50;

/// One remembered item.
#[derive(Debug, Clone)]
pub struct MemoryEntry {
    pub content: String,
    pub timestamp: String,
    pub tags: Vec<String>,
}

/// Model of an entry.
pub struct EntryModel {
    pub content: Seq<char>,
    pub timestamp: Seq<char>,
    pub tags: Seq<Seq<char>>,
}

impl View for MemoryEntry {
    type V = EntryModel;

    open spec fn view(&self) -> EntryModel {
        EntryModel { content: self.content@, timestamp: self.timestamp@, tags: strs_view(self.tags@) }
    }
}

/// Model of a tier.
pub open spec fn tier_view(v: Seq<MemoryEntry>) -> Seq<EntryModel> {
    v.map_values(|e: MemoryEntry| e@)
}

/// The memory of a workspace.
#[derive(Debug)]
pub struct Memory {
    pub core: Vec<MemoryEntry>,
    pub mino: Vec<MemoryEntry>,
    pub short: Vec<MemoryEntry>,
    dir: Option<String>,
}

/// Model of the memory: the three tiers, oldest entry first.
pub struct MemoryView {
    pub core: Seq<EntryModel>,
    pub mino: Seq<EntryModel>,
    pub short: Seq<EntryModel>,
}

impl View for Memory {
    type V = MemoryView;

    closed spec fn view(&self) -> MemoryView {
        MemoryView {
            core: tier_view(self.core@),
            mino: tier_view(self.mino@),
            short: tier_view(self.short@),
        }
    }
}

impl Default for Memory {
    fn default() -> (m: Self)
        ensures
            m@.core.len() == 0 && m@.mino.len() == 0 && m@.short.len() == 0,
            m.dir_spec() is None,
    {
        Memory { core: Vec::new(), mino: Vec::new(), short: Vec::new(), dir: None }
    }
}

/// Which tier a name selects: 0 for `core`, 1 for `mino`, 2 for `short`.
pub open spec fn tier_index(t: Seq<char>) -> Option<int> {
    if t == "core"@ {
        Some(0)
    } else if t == "mino"@ {
        Some(1)
    } else if t == "short"@ {
        Some(2)
    } else {
        None
    }
}

/// The tier with the given index.
pub open spec fn tier_at(m: MemoryView, i: int) -> Seq<EntryModel> {
    if i == 0 {
        m.core
    } else if i == 1 {
        m.mino
    } else {
        m.short
    }
}

/// The memory with the tier of the given index replaced.
pub open spec fn with_tier(m: MemoryView, i: int, t: Seq<EntryModel>) -> MemoryView {
    if i == 0 {
        MemoryView { core: t, ..m }
    } else if i == 1 {
        MemoryView { mino: t, ..m }
    } else {
        MemoryView { short: t, ..m }
    }
}

/// The message for an unknown tier name.
pub open spec fn unknown_tier(t: Seq<char>) -> Seq<char> {
    "Unknown tier: "@ + t + ". Use core/mino/short."@
}

/// The message for an index past the end of a tier.
pub open spec fn out_of_bounds(index: nat, t: Seq<char>, len: nat) -> Seq<char> {
    "Index "@ + dec(index) + " out of bounds for tier '"@ + t + "' (len="@ + dec(len) + ")."@
}

/// The newest `max` entries of a tier.
pub open spec fn keep_newest(t: Seq<EntryModel>, max: nat) -> Seq<EntryModel> {
    if t.len() > max {
        t.skip(t.len() - max)
    } else {
        t
    }
}

/// The memory with the `short` and `mino` tiers cut to their bounds.
pub open spec fn trimmed(m: MemoryView) -> MemoryView {
    MemoryView {
        short: keep_newest(m.short, MAX_SHORT as nat),
        mino: keep_newest(m.mino, MAX_MINO as nat),
        ..m
    }
}

/// The memory after an entry was added to tier `i`.
pub open spec fn added(m: MemoryView, i: int, e: EntryModel) -> MemoryView {
    trimmed(with_tier(m, i, tier_at(m, i).push(e)))
}

/// The memory after an entry with this content, time stamp and tags was added to tier `i`.
pub open spec fn stamped_add(
    m: MemoryView,
    i: int,
    content: Seq<char>,
    ts: Seq<char>,
    tags: Seq<Seq<char>>,
) -> MemoryView {
    added(m, i, EntryModel { content, timestamp: ts, tags })
}

/// The memory after the entry at `index` of tier `i` got new content and time stamp.
pub open spec fn stamped_edit(m: MemoryView, i: int, index: int, content: Seq<char>, ts: Seq<char>) -> MemoryView {
    with_tier(
        m,
        i,
        tier_at(m, i).update(index, EntryModel { content, timestamp: ts, ..tier_at(m, i)[index] }),
    )
}

/// Position of the first entry with the given content.
pub open spec fn content_index(t: Seq<EntryModel>, c: Seq<char>) -> Option<int>
    decreases t.len(),
{
    if t.len() == 0 {
        None
    } else {
        match content_index(t.drop_last(), c) {
            Some(i) => Some(i),
            None => if t.last().content == c {
                Some(t.len() - 1)
            } else {
                None
            },
        }
    }
}

proof fn lemma_content_index_at(t: Seq<EntryModel>, c: Seq<char>, i: int)
    requires
        0 <= i < t.len(),
        t[i].content == c,
        content_index(t.take(i), c) is None,
    ensures
        content_index(t, c) == Some(i),
    decreases t.len(),
{
    if t.len() - 1 == i {
        assert(t.drop_last() =~= t.take(i));
    } else {
        assert(t.drop_last().take(i) =~= t.take(i));
        lemma_content_index_at(t.drop_last(), c, i);
    }
}

/// Whether an entry matches a search: its content or one of its tags
/// contains the query, ignoring case.
pub open spec fn entry_hit(e: EntryModel, q: Seq<char>) -> bool {
    contains(lowercase(e.content), lowercase(q)) || exists|i: int|
        0 <= i < e.tags.len() && contains(lowercase(#[trigger] e.tags[i]), lowercase(q))
}

/// The search hits of one tier, labelled with the tier's name.
pub open spec fn tier_hits(label: Seq<char>, t: Seq<EntryModel>, q: Seq<char>) -> Seq<(Seq<char>, EntryModel)> {
    t.filter(|e: EntryModel| entry_hit(e, q)).map_values(|e: EntryModel| (label, e))
}

/// The search hits, core first, then mino, then short.
pub open spec fn search_hits(m: MemoryView, q: Seq<char>) -> Seq<(Seq<char>, EntryModel)> {
    tier_hits("core"@, m.core, q) + tier_hits("mino"@, m.mino, q) + tier_hits("short"@, m.short, q)
}

/// Model of search results: each tier name with its entry.
pub open spec fn hits_of<'a>(v: Seq<(String, &'a MemoryEntry)>) -> Seq<(Seq<char>, EntryModel)> {
    v.map_values(|p: (String, &MemoryEntry)| (p.0@, p.1@))
}

/// The hits of one tier are the tier's entries that hit, with its label.
proof fn lemma_tier_hits_members(label: Seq<char>, t: Seq<EntryModel>, q: Seq<char>, l: Seq<char>, e: EntryModel)
    ensures
        tier_hits(label, t, q).contains((l, e)) <==> (l == label && t.contains(e) && entry_hit(e, q)),
{
    broadcast use vstd::seq_lib::group_filter_ensures;
    let pr = |x: EntryModel| entry_hit(x, q);
    let f = t.filter(pr);
    let h = tier_hits(label, t, q);
    if h.contains((l, e)) {
        let i = choose|i: int| 0 <= i < h.len() && h[i] == (l, e);
        assert(h[i] == (label, f[i]));
        assert(f.contains(f[i]));
        t.lemma_filter_contains_rev(pr, f[i]);
        t.lemma_filter_pred(pr, i);
    }
    if l == label && t.contains(e) && entry_hit(e, q) {
        let k = choose|k: int| 0 <= k < t.len() && t[k] == e;
        t.lemma_filter_contains(pr, k);
        let j = choose|j: int| 0 <= j < f.len() && f[j] == e;
        assert(h[j] == (l, e));
    }
}

/// Searching finds every entry of every tier whose content or one of whose
/// tags contains the query, ignoring case, labelled with its tier (`core`,
/// `mino` or `short`), and nothing else.
pub proof fn lemma_search_finds_all(m: MemoryView, q: Seq<char>, l: Seq<char>, e: EntryModel)
    ensures
        search_hits(m, q).contains((l, e)) <==> (((l == "core"@ && m.core.contains(e)) || (l == "mino"@
            && m.mino.contains(e)) || (l == "short"@ && m.short.contains(e))) && (contains(
            lowercase(e.content),
            lowercase(q),
        ) || exists|i: int| 0 <= i < e.tags.len() && contains(lowercase(#[trigger] e.tags[i]), lowercase(q)))),
{
    let a = tier_hits("core"@, m.core, q);
    let b = tier_hits("mino"@, m.mino, q);
    let c = tier_hits("short"@, m.short, q);
    lemma_tier_hits_members("core"@, m.core, q, l, e);
    lemma_tier_hits_members("mino"@, m.mino, q, l, e);
    lemma_tier_hits_members("short"@, m.short, q, l, e);
    let s = a + b + c;
    if s.contains((l, e)) {
        let i = choose|i: int| 0 <= i < s.len() && s[i] == (l, e);
        if i < a.len() {
            assert(a[i] == s[i]);
        } else if i < a.len() + b.len() {
            assert(b[i - a.len()] == s[i]);
        } else {
            assert(c[i - a.len() - b.len()] == s[i]);
        }
    }
    if a.contains((l, e)) {
        let i = choose|i: int| 0 <= i < a.len() && a[i] == (l, e);
        assert(s[i] == a[i]);
    }
    if b.contains((l, e)) {
        let i = choose|i: int| 0 <= i < b.len() && b[i] == (l, e);
        assert(s[a.len() + i] == b[i]);
    }
    if c.contains((l, e)) {
        let i = choose|i: int| 0 <= i < c.len() && c[i] == (l, e);
        assert(s[a.len() + b.len() + i] == c[i]);
    }
}

/// A core entry as it appears in the system prompt.
pub open spec fn core_line(e: EntryModel) -> Seq<char> {
    "- "@ + e.content + (if e.tags.len() == 0 {
        Seq::empty()
    } else {
        " ["@ + join(e.tags, ", "@) + "]"@
    }) + "\n"@
}

/// The core entries as lines.
pub open spec fn core_lines(t: Seq<EntryModel>) -> Seq<char>
    decreases t.len(),
{
    if t.len() == 0 {
        Seq::empty()
    } else {
        core_lines(t.drop_last()) + core_line(t.last())
    }
}

/// The core memory section of the system prompt; empty without core entries.
pub open spec fn core_section(m: MemoryView) -> Seq<char> {
    if m.core.len() == 0 {
        Seq::empty()
    } else {
        "\n## Memory (Core)\n"@ + core_lines(m.core)
    }
}

/// Up to `k` entries, newest first.
pub open spec fn newest(t: Seq<EntryModel>, k: nat) -> Seq<EntryModel> {
    let n = if t.len() < k { t.len() } else { k };
    Seq::new(n, |i: int| t[t.len() - 1 - i])
}

/// Lines `- content`.
pub open spec fn plain_lines(t: Seq<EntryModel>) -> Seq<char>
    decreases t.len(),
{
    if t.len() == 0 {
        Seq::empty()
    } else {
        plain_lines(t.drop_last()) + "- "@ + t.last().content + "\n"@
    }
}

/// Lines `- [timestamp] content`.
pub open spec fn stamped_lines(t: Seq<EntryModel>) -> Seq<char>
    decreases t.len(),
{
    if t.len() == 0 {
        Seq::empty()
    } else {
        stamped_lines(t.drop_last()) + "- ["@ + t.last().timestamp + "] "@ + t.last().content
            + "\n"@
    }
}

/// The retrieved context: the five newest `mino` entries and the three newest
/// `short` entries, newest first, each under its heading when the tier is not empty.
pub open spec fn recent_context(m: MemoryView) -> Seq<char> {
    (if m.mino.len() == 0 {
        Seq::empty()
    } else {
        "\n## Memory (Recent)\n"@ + plain_lines(newest(m.mino, 5))
    }) + (if m.short.len() == 0 {
        Seq::empty()
    } else {
        "\n## Recent Sessions\n"@ + stamped_lines(newest(m.short, 3))
    })
}

fn unknown_tier_msg(t: &str) -> (r: String)
    ensures
        r@ == unknown_tier(t@),
{
    let mut r = to_string("Unknown tier: ");
    push_str(&mut r, t);
    push_str(&mut r, ". Use core/mino/short.");
    r
}

/// Which tier a name selects.
fn tier_of(t: &str) -> (r: Option<usize>)
    ensures
        match tier_index(t@) {
            Some(i) => r == Some(i as usize),
            None => r is None,
        },
{
    proof {
        reveal_strlit("core");
        reveal_strlit("mino");
        reveal_strlit("short");
    }
    if str_eq(t, "core") {
        Some(0)
    } else if str_eq(t, "mino") {
        Some(1)
    } else if str_eq(t, "short") {
        Some(2)
    } else {
        None
    }
}

/// A copy of string slices as strings.
fn owned_tags(tags: &[&str]) -> (r: Vec<String>)
    ensures
        r@.len() == tags@.len(),
        forall|i: int| 0 <= i < tags@.len() ==> (#[trigger] r@[i])@ == tags@[i]@,
{
    let mut r: Vec<String> = Vec::new();
    let mut i: usize = 0;
    while i < tags.len()
        invariant
            i <= tags.len(),
            r@.len() == i,
            forall|j: int| 0 <= j < i ==> (#[trigger] r@[j])@ == tags@[j]@,
        decreases tags.len() - i,
    {
        r.push(to_string(tags[i]));
        i = i + 1;
    }
    r
}

/// The model of a tag list given as slices.
pub open spec fn tags_of(tags: Seq<&str>) -> Seq<Seq<char>> {
    tags.map_values(|t: &str| t@)
}

/// Keeps the newest `max` entries of a tier.
fn keep_last(v: &mut Vec<MemoryEntry>, max: usize)
    ensures
        tier_view(final(v)@) == keep_newest(tier_view(old(v)@), max as nat),
{
    let ghost t = tier_view(v@);
    if v.len() > max {
        let drop = v.len() - max;
        let mut k: usize = 0;
        while k < drop
            invariant
                k <= drop,
                drop == t.len() - max,
                v.len() == t.len() - k,
                tier_view(v@) == t.skip(k as int),
            decreases drop - k,
        {
            v.remove(0);
            assert(tier_view(v@) =~= t.skip(k + 1));
            k = k + 1;
        }
    }
}

/// The directory of a workspace's memory, `~/.radi/mem/<workspace hash>`,
/// given the home directory and the workspace's canonical path.
pub fn workspace_dir(home: &str, canonical: &str) -> (r: String)
    ensures
        r@ == path_join(path_join(home@, ".radi/mem"@), hex(std_hash(lowercase(canonical@)) as nat)),
{
    let root = join_path(home, ".radi/mem");
    let h = workspace_hash(canonical);
    join_path(root.as_str(), h.as_str())
}

impl Memory {
    /// An empty memory kept in the given directory.
    pub fn with_dir(dir: Option<String>) -> (m: Memory)
        ensures
            m@.core.len() == 0 && m@.mino.len() == 0 && m@.short.len() == 0,
            m.dir_spec() == dir,
    {
        Memory { core: Vec::new(), mino: Vec::new(), short: Vec::new(), dir }
    }

    pub closed spec fn dir_spec(&self) -> Option<String> {
        self.dir
    }

    /// The directory the memory file is kept in.
    pub fn dir_path(&self) -> (r: &Option<String>)
        ensures
            *r == self.dir_spec(),
    {
        &self.dir
    }

    /// Set the directory the memory file is kept in.
    pub fn set_dir(&mut self, dir: Option<String>)
        ensures
            final(self)@ == old(self)@,
            final(self).dir_spec() == dir,
    {
        self.dir = dir;
    }

    /// The tier with the given index.
    fn tier(&mut self, i: usize) -> (r: &mut Vec<MemoryEntry>)
        requires
            i < 3,
        ensures
            tier_view(r@) == tier_at(old(self)@, i as int),
            final(self)@ == with_tier(old(self)@, i as int, tier_view(final(r)@)),
            final(self).dir_spec() == old(self).dir_spec(),
    {
        if i == 0 {
            &mut self.core
        } else if i == 1 {
            &mut self.mino
        } else {
            &mut self.short
        }
    }

    /// Cut `short` and `mino` down to their bounds, dropping the oldest entries.
    pub fn trim(&mut self)
        ensures
            final(self)@ == trimmed(old(self)@),
            final(self).dir_spec() == old(self).dir_spec(),
    {
        keep_last(&mut self.short, MAX_SHORT);
        keep_last(&mut self.mino, MAX_MINO);
    }

    /// Add an entry stamped `timestamp` to a tier, then trim.
    pub fn add_at(&mut self, tier: &str, content: &str, tags: &[&str], timestamp: String) -> (r:
        Result<(), String>)
        ensures
            final(self).dir_spec() == old(self).dir_spec(),
            match tier_index(tier@) {
                Some(i) => r is Ok && final(self)@ == added(
                    old(self)@,
                    i,
                    EntryModel { content: content@, timestamp: timestamp@, tags: tags_of(tags@) },
                ),
                None => r matches Err(m) && m@ == unknown_tier(tier@) && final(self)@ == old(self)@,
            },
    {
        let i = match tier_of(tier) {
            Some(i) => i,
            None => {
                return Err(unknown_tier_msg(tier));
            },
        };
        let ts = owned_tags(tags);
        assert(strs_view(ts@) =~= tags_of(tags@));
        let entry = MemoryEntry { content: to_string(content), timestamp, tags: ts };
        let ghost ev = entry@;
        let t = self.tier(i);
        let ghost before = tier_view(t@);
        t.push(entry);
        assert(tier_view(t@) =~= before.push(ev));
        self.trim();
        Ok(())
    }

    /// Add an entry stamped with the current local time to a tier, then trim.
    pub fn add(&mut self, tier: &str, content: &str, tags: &[&str]) -> (r: Result<(), String>)
        ensures
            final(self).dir_spec() == old(self).dir_spec(),
            match tier_index(tier@) {
                Some(i) => r is Ok && exists|ts: Seq<char>| final(self)@ == #[trigger] stamped_add(
                    old(self)@,
                    i,
                    content@,
                    ts,
                    tags_of(tags@),
                ),
                None => r matches Err(m) && m@ == unknown_tier(tier@) && final(self)@ == old(self)@,
            },
    {
        proof {
            reveal_strlit("%Y-%m-%d %H:%M");
        }
        let now = crate::clock::local_time("%Y-%m-%d %H:%M");
        let ghost nv = now@;
        let r = self.add_at(tier, content, tags, now);
        proof {
            if let Some(i) = tier_index(tier@) {
                assert(final(self)@ == stamped_add(old(self)@, i, content@, nv, tags_of(tags@)));
            }
        }
        r
    }

    /// Delete the entry at `index` of a tier.
    pub fn delete(&mut self, tier: &str, index: usize) -> (r: Result<(), String>)
        ensures
            final(self).dir_spec() == old(self).dir_spec(),
            match tier_index(tier@) {
                Some(i) => if index < tier_at(old(self)@, i).len() {
                    r is Ok && final(self)@ == with_tier(old(self)@, i, tier_at(old(self)@, i).remove(index as int))
                } else {
                    r matches Err(m) && m@ == out_of_bounds(index as nat, tier@, tier_at(old(self)@, i).len())
                        && final(self)@ == old(self)@
                },
                None => r matches Err(m) && m@ == unknown_tier(tier@) && final(self)@ == old(self)@,
            },
    {
        let i = match tier_of(tier) {
            Some(i) => i,
            None => {
                return Err(unknown_tier_msg(tier));
            },
        };
        let t = self.tier(i);
        let len = t.len();
        if index >= len {
            let mut m = to_string("Index ");
            let a = dec_string(index as u64);
            push_str(&mut m, a.as_str());
            push_str(&mut m, " out of bounds for tier '");
            push_str(&mut m, tier);
            push_str(&mut m, "' (len=");
            let b = dec_string(len as u64);
            push_str(&mut m, b.as_str());
            push_str(&mut m, ").");
            return Err(m);
        }
        let ghost before = tier_view(t@);
        t.remove(index);
        assert(tier_view(t@) =~= before.remove(index as int));
        Ok(())
    }

    /// Replace the content of the entry at `index` of a tier, stamped `timestamp`.
    pub fn edit_at(&mut self, tier: &str, index: usize, content: &str, timestamp: String) -> (r:
        Result<(), String>)
        ensures
            final(self).dir_spec() == old(self).dir_spec(),
            match tier_index(tier@) {
                Some(i) => if index < tier_at(old(self)@, i).len() {
                    r is Ok && final(self)@ == with_tier(
                        old(self)@,
                        i,
                        tier_at(old(self)@, i).update(
                            index as int,
                            EntryModel {
                                content: content@,
                                timestamp: timestamp@,
                                ..tier_at(old(self)@, i)[index as int]
                            },
                        ),
                    )
                } else {
                    r matches Err(m) && m@ == out_of_bounds(index as nat, tier@, tier_at(old(self)@, i).len())
                        && final(self)@ == old(self)@
                },
                None => r matches Err(m) && m@ == unknown_tier(tier@) && final(self)@ == old(self)@,
            },
    {
        let i = match tier_of(tier) {
            Some(i) => i,
            None => {
                return Err(unknown_tier_msg(tier));
            },
        };
        let t = self.tier(i);
        let len = t.len();
        if index >= len {
            let mut m = to_string("Index ");
            let a = dec_string(index as u64);
            push_str(&mut m, a.as_str());
            push_str(&mut m, " out of bounds for tier '");
            push_str(&mut m, tier);
            push_str(&mut m, "' (len=");
            let b = dec_string(len as u64);
            push_str(&mut m, b.as_str());
            push_str(&mut m, ").");
            return Err(m);
        }
        let ghost before = tier_view(t@);
        let mut e = t.remove(index);
        e.content = to_string(content);
        e.timestamp = timestamp;
        let ghost ev = e@;
        t.insert(index, e);
        assert(tier_view(t@) =~= before.update(index as int, ev));
        Ok(())
    }

    /// Replace the content of the entry at `index` of a tier, stamped with the current local time.
    pub fn edit(&mut self, tier: &str, index: usize, content: &str) -> (r: Result<(), String>)
        ensures
            final(self).dir_spec() == old(self).dir_spec(),
            match tier_index(tier@) {
                Some(i) => if index < tier_at(old(self)@, i).len() {
                    r is Ok && exists|ts: Seq<char>| final(self)@ == #[trigger] stamped_edit(
                        old(self)@,
                        i,
                        index as int,
                        content@,
                        ts,
                    )
                } else {
                    r is Err && final(self)@ == old(self)@
                },
                None => r matches Err(m) && m@ == unknown_tier(tier@) && final(self)@ == old(self)@,
            },
    {
        proof {
            reveal_strlit("%Y-%m-%d %H:%M");
        }
        let now = crate::clock::local_time("%Y-%m-%d %H:%M");
        let ghost nv = now@;
        let r = self.edit_at(tier, index, content, now);
        proof {
            if let Some(i) = tier_index(tier@) {
                if index < tier_at(old(self)@, i).len() {
                    assert(final(self)@ == stamped_edit(old(self)@, i, index as int, content@, nv));
                }
            }
        }
        r
    }

    /// Remove every entry of a tier.
    pub fn clear(&mut self, tier: &str) -> (r: Result<(), String>)
        ensures
            final(self).dir_spec() == old(self).dir_spec(),
            match tier_index(tier@) {
                Some(i) => r is Ok && final(self)@ == with_tier(old(self)@, i, Seq::empty()),
                None => r matches Err(m) && m@ == unknown_tier(tier@) && final(self)@ == old(self)@,
            },
    {
        let i = match tier_of(tier) {
            Some(i) => i,
            None => {
                return Err(unknown_tier_msg(tier));
            },
        };
        let t = self.tier(i);
        t.clear();
        assert(tier_view(t@) =~= Seq::<EntryModel>::empty());
        Ok(())
    }

    /// Remove the first entry of a tier with exactly this content; says whether one was found.
    pub fn remove_by_content(&mut self, tier: &str, content: &str) -> (r: Result<bool, String>)
        ensures
            final(self).dir_spec() == old(self).dir_spec(),
            match tier_index(tier@) {
                Some(i) => match content_index(tier_at(old(self)@, i), content@) {
                    Some(k) => r == Ok::<bool, String>(true) && final(self)@ == with_tier(
                        old(self)@,
                        i,
                        tier_at(old(self)@, i).remove(k),
                    ),
                    None => r == Ok::<bool, String>(false) && final(self)@ == old(self)@,
                },
                None => r matches Err(m) && m@ == unknown_tier(tier@) && final(self)@ == old(self)@,
            },
    {
        let i = match tier_of(tier) {
            Some(i) => i,
            None => {
                return Err(unknown_tier_msg(tier));
            },
        };
        let found = match i {
            0 => find_content(&self.core, content),
            1 => find_content(&self.mino, content),
            _ => find_content(&self.short, content),
        };
        match found {
            Some(k) => {
                let t = self.tier(i);
                let ghost tv = tier_view(t@);
                t.remove(k);
                assert(tier_view(t@) =~= tv.remove(k as int));
                Ok(true)
            },
            None => Ok(false),
        }
    }

    /// The entries whose content or a tag contains `query`, ignoring case,
    /// with the name of their tier: core first, then mino, then short.
    pub fn search(&self, query: &str) -> (r: Vec<(String, &MemoryEntry)>)
        ensures
            r@.map_values(|p: (String, &MemoryEntry)| (p.0@, p.1@)) == search_hits(self@, query@),
            forall|l: Seq<char>, e: EntryModel|
                #[trigger] hits_of(r@).contains((l, e)) <==> (((l
                    == "core"@ && self@.core.contains(e)) || (l == "mino"@ && self@.mino.contains(e)) || (l
                    == "short"@ && self@.short.contains(e))) && (contains(lowercase(e.content), lowercase(query@))
                    || exists|i: int| 0 <= i < e.tags.len() && contains(lowercase(#[trigger] e.tags[i]), lowercase(query@)))),
    {
        proof {
            assert forall|l: Seq<char>, e: EntryModel| #[trigger] search_hits(self@, query@).contains((l, e)) <==> (((l
                == "core"@ && self@.core.contains(e)) || (l == "mino"@ && self@.mino.contains(e)) || (l == "short"@
                && self@.short.contains(e))) && (contains(lowercase(e.content), lowercase(query@)) || exists|i: int|
                0 <= i < e.tags.len() && contains(lowercase(#[trigger] e.tags[i]), lowercase(query@)))) by {
                lemma_search_finds_all(self@, query@, l, e);
            }
        }
        let q = to_lowercase(query);
        let mut out: Vec<(String, &MemoryEntry)> = Vec::new();
        proof {
            reveal_strlit("core");
            reveal_strlit("mino");
            reveal_strlit("short");
        }
        collect_hits(&mut out, "core", &self.core, query, &q);
        collect_hits(&mut out, "mino", &self.mino, query, &q);
        collect_hits(&mut out, "short", &self.short, query, &q);
        proof {
            let f = |p: (String, &MemoryEntry)| (p.0@, p.1@);
            assert(out@.map_values(f) =~= search_hits(self@, query@));
        }
        out
    }

    /// The core memory section of the system prompt; empty without core entries.
    pub fn core_context(&self) -> (r: String)
        ensures
            r@ == core_section(self@),
    {
        if self.core.len() == 0 {
            return String::new();
        }
        let ghost t = tier_view(self.core@);
        let mut ctx = to_string("\n## Memory (Core)\n");
        let mut i: usize = 0;
        while i < self.core.len()
            invariant
                i <= self.core.len(),
                t == tier_view(self.core@),
                ctx@ == "\n## Memory (Core)\n"@ + core_lines(t.take(i as int)),
            decreases self.core.len() - i,
        {
            let m = &self.core[i];
            push_str(&mut ctx, "- ");
            push_str(&mut ctx, m.content.as_str());
            if m.tags.len() > 0 {
                push_str(&mut ctx, " [");
                let j = join_strings(&m.tags, ", ");
                push_str(&mut ctx, j.as_str());
                push_str(&mut ctx, "]");
            }
            push_str(&mut ctx, "\n");
            proof {
                assert(t.take(i + 1).drop_last() =~= t.take(i as int));
                assert(t.take(i + 1).last() == m@);
            }
            assert(ctx@ =~= "\n## Memory (Core)\n"@ + core_lines(t.take(i + 1)));
            i = i + 1;
        }
        assert(t.take(i as int) =~= t);
        ctx
    }

    /// The retrieved context: the newest `mino` and `short` entries.
    pub fn context(&self) -> (r: String)
        ensures
            r@ == recent_context(self@),
    {
        let mut ctx = String::new();
        let ghost mino = tier_view(self.mino@);
        let ghost short = tier_view(self.short@);
        if self.mino.len() > 0 {
            push_str(&mut ctx, "\n## Memory (Recent)\n");
            let n = self.mino.len();
            let k = if n < 5 { n } else { 5 };
            let ghost sel = newest(mino, 5);
            let mut i: usize = 0;
            while i < k
                invariant
                    i <= k,
                    k <= n == self.mino.len(),
                    mino == tier_view(self.mino@),
                    sel == newest(mino, 5),
                    sel.len() == k,
                    ctx@ == "\n## Memory (Recent)\n"@ + plain_lines(sel.take(i as int)),
                decreases k - i,
            {
                let m = &self.mino[n - 1 - i];
                push_str(&mut ctx, "- ");
                push_str(&mut ctx, m.content.as_str());
                push_str(&mut ctx, "\n");
                proof {
                    assert(sel.take(i + 1).drop_last() =~= sel.take(i as int));
                    assert(sel.take(i + 1).last() == m@);
                }
                assert(ctx@ =~= "\n## Memory (Recent)\n"@ + plain_lines(sel.take(i + 1)));
                i = i + 1;
            }
            assert(sel.take(k as int) =~= sel);
        }
        let ghost first = ctx@;
        if self.short.len() > 0 {
            push_str(&mut ctx, "\n## Recent Sessions\n");
            let n = self.short.len();
            let k = if n < 3 { n } else { 3 };
            let ghost sel = newest(short, 3);
            let mut i: usize = 0;
            while i < k
                invariant
                    i <= k,
                    k <= n == self.short.len(),
                    short == tier_view(self.short@),
                    sel == newest(short, 3),
                    sel.len() == k,
                    ctx@ == first + "\n## Recent Sessions\n"@ + stamped_lines(sel.take(i as int)),
                decreases k - i,
            {
                let m = &self.short[n - 1 - i];
                push_str(&mut ctx, "- [");
                push_str(&mut ctx, m.timestamp.as_str());
                push_str(&mut ctx, "] ");
                push_str(&mut ctx, m.content.as_str());
                push_str(&mut ctx, "\n");
                proof {
                    assert(sel.take(i + 1).drop_last() =~= sel.take(i as int));
                    assert(sel.take(i + 1).last() == m@);
                }
                assert(ctx@ =~= first + "\n## Recent Sessions\n"@ + stamped_lines(sel.take(i + 1)));
                i = i + 1;
            }
            assert(sel.take(k as int) =~= sel);
        }
        assert(ctx@ =~= recent_context(self@));
        ctx
    }
}

/// Position of the first entry of a tier with exactly this content.
fn find_content(t: &Vec<MemoryEntry>, content: &str) -> (r: Option<usize>)
    ensures
        match r {
            Some(k) => k < t.len() && content_index(tier_view(t@), content@) == Some(k as int),
            None => content_index(tier_view(t@), content@) is None,
        },
{
    let ghost tv = tier_view(t@);
    let mut k: usize = 0;
    while k < t.len()
        invariant
            k <= t.len(),
            tv == tier_view(t@),
            content_index(tv.take(k as int), content@) is None,
        decreases t.len() - k,
    {
        proof {
            assert(tv.take(k + 1).drop_last() =~= tv.take(k as int));
        }
        if str_eq(t[k].content.as_str(), content) {
            proof {
                lemma_content_index_at(tv, content@, k as int);
            }
            return Some(k);
        }
        k = k + 1;
    }
    assert(tv.take(k as int) =~= tv);
    None
}

/// Appends the search hits of one tier to `out`.
fn collect_hits<'a>(
    out: &mut Vec<(String, &'a MemoryEntry)>,
    label: &str,
    tier: &'a Vec<MemoryEntry>,
    query: &str,
    q: &String,
)
    requires
        q@ == lowercase(query@),
    ensures
        final(out)@.map_values(|p: (String, &MemoryEntry)| (p.0@, p.1@)) == old(out)@.map_values(
            |p: (String, &MemoryEntry)| (p.0@, p.1@),
        ) + tier_hits(label@, tier_view(tier@), query@),
{
    let ghost f = |p: (String, &MemoryEntry)| (p.0@, p.1@);
    let ghost start = out@.map_values(f);
    let ghost t = tier_view(tier@);
    let ghost pred = |e: EntryModel| entry_hit(e, query@);
    let ghost lab = |e: EntryModel| (label@, e);
    let mut i: usize = 0;
    while i < tier.len()
        invariant
            i <= tier.len(),
            q@ == lowercase(query@),
            t == tier_view(tier@),
            f == (|p: (String, &MemoryEntry)| (p.0@, p.1@)),
            pred == (|e: EntryModel| entry_hit(e, query@)),
            lab == (|e: EntryModel| (label@, e)),
            out@.map_values(f) == start + t.take(i as int).filter(pred).map_values(lab),
        decreases tier.len() - i,
    {
        let e = &tier[i];
        proof {
            assert(t.take(i + 1) =~= t.take(i as int).push(e@));
            t.take(i as int).lemma_filter_push(e@, pred);
        }
        let c = to_lowercase(e.content.as_str());
        let mut hit = contains_str(c.as_str(), q.as_str());
        let mut j: usize = 0;
        while j < e.tags.len() && !hit
            invariant
                j <= e.tags.len(),
                q@ == lowercase(query@),
                hit ==> entry_hit(e@, query@),
                !hit ==> !contains(lowercase(e@.content), lowercase(query@)),
                !hit ==> forall|k: int| 0 <= k < j ==> !contains(lowercase(#[trigger] e@.tags[k]), lowercase(query@)),
            decreases e.tags.len() - j,
        {
            let tl = to_lowercase(e.tags[j].as_str());
            if contains_str(tl.as_str(), q.as_str()) {
                assert(e@.tags[j as int] == e.tags@[j as int]@);
                hit = true;
            }
            j = j + 1;
        }
        if hit {
            let ghost before = out@.map_values(f);
            out.push((to_string(label), e));
            assert(out@.map_values(f) =~= before.push((label@, e@)));
            assert(t.take(i as int).filter(pred).push(e@).map_values(lab) =~= t.take(i as int).filter(
                pred,
            ).map_values(lab).push((label@, e@)));
        }
        i = i + 1;
    }
    assert(t.take(i as int) =~= t);
}

/// After any addition the bounded tiers respect their bounds: at most
/// twenty `short` and fifty `mino` entries, the newest ones, with the new
/// entry last in its tier.
pub proof fn lemma_add_respects_bounds(m: MemoryView, i: int, e: EntryModel)
    requires
        0 <= i < 3,
    ensures
        added(m, i, e).short.len() <= MAX_SHORT,
        added(m, i, e).mino.len() <= MAX_MINO,
        tier_at(added(m, i, e), i).last() == e,
        added(m, i, e).core.len() == if i == 0 { m.core.len() + 1 } else { m.core.len() },
{
    let t = tier_at(m, i).push(e);
    let w = with_tier(m, i, t);
    assert(tier_at(w, i) == t);
}

} // verus!
