//! Agent skills: a `SKILL.md` holds a frontmatter block (`name`,
//! `description`, optional `allowed-tools`) between `---` lines, followed by
//! markdown instructions.
//!
//! This module parses those files, matches skills against user input, and
//! keeps the registry of discovered and activated skills. Finding and reading
//! the files under the skills directory is the caller's part.
use vstd::prelude::*;
use crate::text::{
    byte_len, chars_of, contains, contains_str, find, find_str, index_of_char, is_whitespace,
    lemma_char_index, lemma_find_correct, lines, lowercase, push_str, split_lines, split_words,
    str_eq, strs_view, to_lowercase, to_string, trim, trim_range, utf8_len, words, char_index,
};

verus! {

broadcast use vstd::seq_lib::group_seq_properties;

/// What discovery keeps of a skill: its name, description and directory.
#[derive(Debug, Clone)]
pub struct SkillMeta {
    pub name: String,
    pub description: String,
    /// The skill's directory.
    pub path: String,
}

/// A skill with its instructions, loaded on activation.
#[derive(Debug, Clone)]
pub struct Skill {
    pub name: String,
    pub description: String,
    pub allowed_tools: Vec<String>,
    pub instructions: String,
    pub path: String,
}

/// Model of a skill.
pub struct SkillView {
    pub name: Seq<char>,
    pub description: Seq<char>,
    pub allowed_tools: Seq<Seq<char>>,
    pub instructions: Seq<char>,
    pub path: Seq<char>,
}

impl View for Skill {
    type V = SkillView;

    open spec fn view(&self) -> SkillView {
        SkillView {
            name: self.name@,
            description: self.description@,
            allowed_tools: strs_view(self.allowed_tools@),
            instructions: self.instructions@,
            path: self.path@,
        }
    }
}

// ── Frontmatter ──

/// The frontmatter and body of a `SKILL.md`, both trimmed: when the text
/// starts with `---` and another `---` follows, the frontmatter is what lies
/// between them and the body what follows; otherwise there is no frontmatter
/// and the body is the whole text.
pub open spec fn split_fm(c: Seq<char>) -> (Seq<char>, Seq<char>) {
    if "---"@.is_prefix_of(c) {
        let st = c.skip(3);
        match find(st, "---"@) {
            Some(e) => (trim(st.take(e)), trim(st.skip(e + 3))),
            None => (Seq::empty(), trim(c)),
        }
    } else {
        (Seq::empty(), trim(c))
    }
}

/// `s.trim()` as a slice of `s`.
fn trim_str(s: &str) -> (r: &str)
    ensures
        r@ == trim(s@),
{
    let cs = chars_of(s);
    let (a, b) = trim_range(&cs, 0, cs.len());
    assert(cs@.subrange(0, cs@.len() as int) == cs@);
    s.substring_char(a, b)
}

/// Split a `SKILL.md` into its frontmatter and its body.
pub fn split_frontmatter(content: &str) -> (r: (&str, &str))
    ensures
        (r.0@, r.1@) == split_fm(content@),
{
    proof {
        reveal_strlit("---");
        reveal_strlit("");
    }
    if crate::text::starts_with(content, "---") {
        let n = content.unicode_len();
        let st = content.substring_char(3, n);
        match find_str(st, "---") {
            Some(e) => {
                proof {
                    lemma_find_correct(st@, "---"@);
                }
                let m = st.unicode_len();
                let fm = trim_str(st.substring_char(0, e));
                let body = trim_str(st.substring_char(e + 3, m));
                assert(st@.subrange(0, e as int) == st@.take(e as int));
                assert(st@.subrange(e + 3, m as int) == st@.skip(e + 3));
                (fm, body)
            },
            None => ("", trim_str(content)),
        }
    } else {
        ("", trim_str(content))
    }
}

/// The fields read from a frontmatter.
pub struct FrontMatter {
    pub name: Seq<char>,
    pub description: Seq<char>,
    pub tools: Seq<Seq<char>>,
}

/// One frontmatter line applied: blank lines and `#` comments are skipped; a
/// `key: value` line sets `name`, `description` or `allowed-tools` (a
/// whitespace-separated list); a later line overrides an earlier one.
pub open spec fn fm_step(st: FrontMatter, line: Seq<char>) -> FrontMatter {
    let t = trim(line);
    if t.len() == 0 || t[0] == '#' {
        st
    } else {
        match char_index(t, ':') {
            Some(k) => {
                let key = trim(t.take(k));
                let value = trim(t.skip(k + 1));
                if key == "name"@ {
                    FrontMatter { name: value, ..st }
                } else if key == "description"@ {
                    FrontMatter { description: value, ..st }
                } else if key == "allowed-tools"@ {
                    FrontMatter { tools: words(value), ..st }
                } else {
                    st
                }
            },
            None => st,
        }
    }
}

/// The frontmatter lines applied in order.
pub open spec fn fm_fold(ls: Seq<Seq<char>>) -> FrontMatter
    decreases ls.len(),
{
    if ls.len() == 0 {
        FrontMatter { name: Seq::empty(), description: Seq::empty(), tools: Seq::empty() }
    } else {
        fm_step(fm_fold(ls.drop_last()), ls.last())
    }
}

/// The fields of a `SKILL.md`'s frontmatter.
pub open spec fn front_matter(content: Seq<char>) -> FrontMatter {
    fm_fold(lines(split_fm(content).0))
}

/// The skill name: the frontmatter's, or the directory's name when it gives none.
pub open spec fn skill_name(content: Seq<char>, dir_name: Seq<char>) -> Seq<char> {
    if front_matter(content).name.len() == 0 {
        dir_name
    } else {
        front_matter(content).name
    }
}

/// Read the frontmatter lines into their fields.
fn read_front_matter(fm: &str) -> (r: (String, String, Vec<String>))
    ensures
        r.0@ == fm_fold(lines(fm@)).name,
        r.1@ == fm_fold(lines(fm@)).description,
        strs_view(r.2@) == fm_fold(lines(fm@)).tools,
{
    proof {
        reveal_strlit("name");
        reveal_strlit("description");
        reveal_strlit("allowed-tools");
    }
    let ls = split_lines(fm);
    let ghost lv = strs_view(ls@);
    let mut name = String::new();
    let mut description = String::new();
    let mut tools: Vec<String> = Vec::new();
    let mut i: usize = 0;
    assert(lv.take(0) =~= Seq::<Seq<char>>::empty());
    assert(strs_view(tools@) =~= Seq::<Seq<char>>::empty());
    while i < ls.len()
        invariant
            i <= ls.len(),
            lv == strs_view(ls@),
            lv == lines(fm@),
            fm_fold(lv.take(i as int)) == (FrontMatter {
                name: name@,
                description: description@,
                tools: strs_view(tools@),
            }),
        decreases ls.len() - i,
    {
        proof {
            assert(lv.take(i + 1).drop_last() =~= lv.take(i as int));
            assert(lv.take(i + 1).last() == ls@[i as int]@);
        }
        let t = trim_str(ls[i].as_str());
        let tc = chars_of(t);
        if tc.len() > 0 && tc[0] != '#' {
            match index_of_char(&tc, 0, ':') {
                Some(k) => {
                    proof {
                        assert(tc@.skip(0) =~= tc@);
                        lemma_char_index(tc@, ':');
                    }
                    let key = trim_str(t.substring_char(0, k));
                    let value = trim_str(t.substring_char(k + 1, tc.len()));
                    assert(t@.subrange(0, k as int) == t@.take(k as int));
                    assert(t@.subrange(k + 1, tc.len() as int) == t@.skip(k + 1));
                    if str_eq(key, "name") {
                        name = to_string(value);
                    } else if str_eq(key, "description") {
                        description = to_string(value);
                    } else if str_eq(key, "allowed-tools") {
                        tools = split_words(value);
                    }
                },
                None => {
                    proof {
                        assert(tc@.skip(0) =~= tc@);
                    }
                },
            }
        }
        i = i + 1;
    }
    assert(lv.take(i as int) =~= lv);
    (name, description, tools)
}

/// Discovery metadata of a skill from its `SKILL.md` text; `dir` is the
/// skill's directory and `dir_name` its last component, the fallback name.
pub fn parse_metadata(content: &str, dir: &str, dir_name: &str) -> (m: SkillMeta)
    ensures
        m.name@ == skill_name(content@, dir_name@),
        m.description@ == front_matter(content@).description,
        m.path@ == dir@,
{
    let (fm, _body) = split_frontmatter(content);
    let (name, description, _tools) = read_front_matter(fm);
    let name = if name.as_str().is_empty() {
        to_string(dir_name)
    } else {
        name
    };
    SkillMeta { name, description, path: to_string(dir) }
}

/// A full skill from its `SKILL.md` text; `dir` is the skill's directory and
/// `dir_name` its last component, the fallback name.
pub fn parse_full(content: &str, dir: &str, dir_name: &str) -> (s: Skill)
    ensures
        s@ == (SkillView {
            name: skill_name(content@, dir_name@),
            description: front_matter(content@).description,
            allowed_tools: front_matter(content@).tools,
            instructions: split_fm(content@).1,
            path: dir@,
        }),
{
    let (fm, body) = split_frontmatter(content);
    let (name, description, allowed_tools) = read_front_matter(fm);
    let name = if name.as_str().is_empty() {
        to_string(dir_name)
    } else {
        name
    };
    Skill { name, description, allowed_tools, instructions: to_string(body), path: to_string(dir) }
}

// ── Matching ──

/// The words of the lower-cased input that are at least two bytes long.
pub open spec fn input_words(input: Seq<char>) -> Seq<Seq<char>> {
    words(lowercase(input)).filter(|w: Seq<char>| utf8_len(w) >= 2)
}

/// A skill matches the input when its lower-cased name occurs in the
/// lower-cased input, or one of the input's words occurs in its lower-cased description.
pub open spec fn skill_matches(input: Seq<char>, m: SkillMeta) -> bool {
    contains(lowercase(input), lowercase(m.name@)) || exists|i: int|
        0 <= i < input_words(input).len() && contains(
            lowercase(m.description@),
            #[trigger] input_words(input)[i],
        )
}

/// Whether a skill answers the input: its name, lower-cased, occurs in the
/// lower-cased input, or a word of the lower-cased input at least two bytes
/// long occurs in its lower-cased description.
pub open spec fn answers_input(input: Seq<char>, m: SkillMeta) -> bool {
    contains(lowercase(input), lowercase(m.name@)) || exists|i: int|
        0 <= i < words(lowercase(input)).len() && utf8_len(#[trigger] words(lowercase(input))[i]) >= 2 && contains(
            lowercase(m.description@),
            words(lowercase(input))[i],
        )
}

/// The skills among `metas` that match the input, in order.
pub open spec fn matched_skills(input: Seq<char>, metas: Seq<SkillMeta>) -> Seq<SkillMeta> {
    metas.filter(|x: SkillMeta| skill_matches(input, x))
}

/// The skills kept for an input are exactly those among the given ones
/// that answer it.
pub proof fn lemma_match_members(input: Seq<char>, metas: Seq<SkillMeta>, m: SkillMeta)
    ensures
        matched_skills(input, metas).contains(m) <==> (metas.contains(m) && answers_input(input, m)),
{
    broadcast use vstd::seq_lib::group_filter_ensures;
    let ws = words(lowercase(input));
    let wp = |w: Seq<char>| utf8_len(w) >= 2;
    let iw = ws.filter(wp);
    assert(skill_matches(input, m) <==> answers_input(input, m)) by {
        assert(input_words(input) == iw);
        if exists|i: int| 0 <= i < iw.len() && contains(lowercase(m.description@), #[trigger] iw[i]) {
            let i = choose|i: int| 0 <= i < iw.len() && contains(lowercase(m.description@), #[trigger] iw[i]);
            assert(iw.contains(iw[i]));
            ws.lemma_filter_contains_rev(wp, iw[i]);
            ws.lemma_filter_pred(wp, i);
            let k = choose|k: int| 0 <= k < ws.len() && ws[k] == iw[i];
            assert(utf8_len(ws[k]) >= 2);
            assert(contains(lowercase(m.description@), ws[k]));
        }
        if exists|i: int| 0 <= i < ws.len() && utf8_len(#[trigger] ws[i]) >= 2 && contains(lowercase(m.description@), ws[i]) {
            let i = choose|i: int| 0 <= i < ws.len() && utf8_len(#[trigger] ws[i]) >= 2 && contains(lowercase(m.description@), ws[i]);
            ws.lemma_filter_contains(wp, i);
            let j = choose|j: int| 0 <= j < iw.len() && iw[j] == ws[i];
            assert(contains(lowercase(m.description@), iw[j]));
            assert(contains(lowercase(m.description@), input_words(input)[j]));
        }
    }
    let pr = |x: SkillMeta| skill_matches(input, x);
    let f = metas.filter(pr);
    if f.contains(m) {
        metas.lemma_filter_contains_rev(pr, m);
        let i = choose|i: int| 0 <= i < f.len() && f[i] == m;
        metas.lemma_filter_pred(pr, i);
    }
    if metas.contains(m) && answers_input(input, m) {
        let k = choose|k: int| 0 <= k < metas.len() && metas[k] == m;
        metas.lemma_filter_contains(pr, k);
    }
}

/// The skills among `metas` that match the input, in order.
pub fn match_by_input(input: &str, metas: Vec<SkillMeta>) -> (r: Vec<SkillMeta>)
    ensures
        r@ == metas@.filter(|m: SkillMeta| skill_matches(input@, m)),
        forall|m: SkillMeta| #[trigger] r@.contains(m) <==> (metas@.contains(m) && answers_input(input@, m)),
{
    proof {
        assert forall|m: SkillMeta| #[trigger] matched_skills(input@, metas@).contains(m) <==> (metas@.contains(m)
            && answers_input(input@, m)) by {
            lemma_match_members(input@, metas@, m);
        }
    }
    let ghost mv = metas@;
    let lower = to_lowercase(input);
    let all_words = split_words(lower.as_str());
    let ghost wpred = |w: Seq<char>| utf8_len(w) >= 2;
    let mut ws: Vec<String> = Vec::new();
    let mut i: usize = 0;
    while i < all_words.len()
        invariant
            i <= all_words.len(),
            strs_view(all_words@) == words(lowercase(input@)),
            wpred == (|w: Seq<char>| utf8_len(w) >= 2),
            strs_view(ws@) == strs_view(all_words@).take(i as int).filter(wpred),
        decreases all_words.len() - i,
    {
        let ghost before = strs_view(ws@);
        proof {
            let av = strs_view(all_words@);
            assert(av.take(i + 1) =~= av.take(i as int).push(av[i as int]));
            av.take(i as int).lemma_filter_push(av[i as int], wpred);
        }
        if byte_len(all_words[i].as_str()) >= 2 {
            ws.push(all_words[i].clone());
            assert(strs_view(ws@) =~= before.push(all_words@[i as int]@));
        }
        i = i + 1;
    }
    assert(strs_view(all_words@).take(i as int) =~= strs_view(all_words@));
    let ghost pred = |m: SkillMeta| skill_matches(input@, m);
    let ghost all = metas@;
    let n = metas.len();
    let mut rest = metas;
    let mut out: Vec<SkillMeta> = Vec::new();
    let mut j: usize = 0;
    while rest.len() > 0
        invariant
            j + rest.len() == all.len() == n,
            rest@ == all.skip(j as int),
            lower@ == lowercase(input@),
            strs_view(ws@) == input_words(input@),
            pred == (|m: SkillMeta| skill_matches(input@, m)),
            out@ == all.take(j as int).filter(pred),
        decreases rest.len(),
    {
        let m = rest.remove(0);
        proof {
            assert(all.skip(j as int)[0] == m);
            assert(rest@ =~= all.skip(j + 1));
            assert(all.take(j + 1) =~= all.take(j as int).push(m));
            all.take(j as int).lemma_filter_push(m, pred);
        }
        let name_l = to_lowercase(m.name.as_str());
        let desc_l = to_lowercase(m.description.as_str());
        let mut hit = contains_str(lower.as_str(), name_l.as_str());
        let mut k: usize = 0;
        while k < ws.len() && !hit
            invariant
                k <= ws.len(),
                strs_view(ws@) == input_words(input@),
                desc_l@ == lowercase(m.description@),
                hit ==> skill_matches(input@, m),
                !hit ==> !contains(lowercase(input@), lowercase(m.name@)),
                !hit ==> forall|q: int| 0 <= q < k ==> !contains(desc_l@, #[trigger] input_words(input@)[q]),
            decreases ws.len() - k,
        {
            if contains_str(desc_l.as_str(), ws[k].as_str()) {
                assert(input_words(input@)[k as int] == ws@[k as int]@);
                hit = true;
            }
            k = k + 1;
        }
        if hit {
            out.push(m);
        }
        j = j + 1;
    }
    assert(all.take(j as int) =~= all);
    assert(out@ == matched_skills(input@, mv));
    out
}

// ── Registry ──

/// Model of the registry: the discovered skills, and the activated ones by
/// the name they were activated under, in activation order.
pub struct RegistryView {
    pub metas: Seq<SkillMeta>,
    pub loaded: Seq<(Seq<char>, SkillView)>,
}

/// Discovered skills and the activated ones.
pub struct SkillRegistry {
    metas: Vec<SkillMeta>,
    loaded: Vec<(String, Skill)>,
}

/// Model of the activated skills.
pub open spec fn loaded_view(v: Seq<(String, Skill)>) -> Seq<(Seq<char>, SkillView)> {
    v.map_values(|p: (String, Skill)| (p.0@, p.1@))
}

impl View for SkillRegistry {
    type V = RegistryView;

    closed spec fn view(&self) -> RegistryView {
        RegistryView { metas: self.metas@, loaded: loaded_view(self.loaded@) }
    }
}

/// No skill is activated twice under one name.
pub open spec fn registry_wf(r: RegistryView) -> bool {
    forall|i: int, j: int|
        0 <= i < j < r.loaded.len() ==> (#[trigger] r.loaded[i]).0 != (#[trigger] r.loaded[j]).0
}

/// Position of the skill activated under `name`.
pub open spec fn loaded_index(ls: Seq<(Seq<char>, SkillView)>, name: Seq<char>) -> Option<int>
    decreases ls.len(),
{
    if ls.len() == 0 {
        None
    } else {
        match loaded_index(ls.drop_last(), name) {
            Some(i) => Some(i),
            None => if ls.last().0 == name {
                Some(ls.len() - 1)
            } else {
                None
            },
        }
    }
}

proof fn lemma_loaded_index(ls: Seq<(Seq<char>, SkillView)>, name: Seq<char>)
    ensures
        match loaded_index(ls, name) {
            Some(i) => 0 <= i < ls.len() && ls[i].0 == name && forall|j: int|
                0 <= j < i ==> (#[trigger] ls[j]).0 != name,
            None => forall|j: int| 0 <= j < ls.len() ==> (#[trigger] ls[j]).0 != name,
        },
    decreases ls.len(),
{
    if ls.len() > 0 {
        let d = ls.drop_last();
        lemma_loaded_index(d, name);
        match loaded_index(d, name) {
            Some(i) => {
                assert forall|j: int| 0 <= j < i implies (#[trigger] ls[j]).0 != name by {
                    assert(ls[j] == d[j]);
                }
                assert(ls[i] == d[i]);
            },
            None => {
                assert forall|j: int| 0 <= j < ls.len() - 1 implies (#[trigger] ls[j]).0 != name by {
                    assert(ls[j] == d[j]);
                }
            },
        }
    }
}

/// The instructions section for the activated skills.
pub open spec fn sections(ls: Seq<(Seq<char>, SkillView)>) -> Seq<char>
    decreases ls.len(),
{
    if ls.len() == 0 {
        Seq::empty()
    } else {
        sections(ls.drop_last()) + "### "@ + ls.last().1.name + "\n\n"@ + ls.last().1.instructions
            + "\n\n"@
    }
}

/// All activated skills' instructions under one heading, or nothing when none is active.
pub open spec fn combined(ls: Seq<(Seq<char>, SkillView)>) -> Seq<char> {
    if ls.len() == 0 {
        Seq::empty()
    } else {
        "\n\n## Active Skills\n\n"@ + sections(ls)
    }
}

impl SkillRegistry {
    /// Position of the skill activated under `name`.
    fn position(&self, name: &str) -> (r: Option<usize>)
        ensures
            match r {
                Some(i) => i < self.loaded.len() && loaded_index(self@.loaded, name@) == Some(i as int),
                None => loaded_index(self@.loaded, name@) is None,
            },
    {
        let ghost ls = self@.loaded;
        proof {
            lemma_loaded_index(ls, name@);
        }
        let mut i: usize = 0;
        while i < self.loaded.len()
            invariant
                i <= self.loaded.len(),
                ls == loaded_view(self.loaded@),
                forall|j: int| 0 <= j < i ==> (#[trigger] ls[j]).0 != name@,
                match loaded_index(ls, name@) {
                    Some(x) => 0 <= x < ls.len() && ls[x].0 == name@ && forall|j: int|
                        0 <= j < x ==> (#[trigger] ls[j]).0 != name@,
                    None => forall|j: int| 0 <= j < ls.len() ==> (#[trigger] ls[j]).0 != name@,
                },
            decreases self.loaded.len() - i,
        {
            assert(ls[i as int].0 == self.loaded@[i as int].0@);
            if str_eq(self.loaded[i].0.as_str(), name) {
                return Some(i);
            }
            i = i + 1;
        }
        None
    }

    /// A registry of the given discovered skills, none activated.
    pub fn new(metas: Vec<SkillMeta>) -> (r: SkillRegistry)
        ensures
            r@.metas == metas@,
            r@.loaded.len() == 0,
            registry_wf(r@),
    {
        SkillRegistry { metas, loaded: Vec::new() }
    }

    /// Replace the discovered skills; every activated skill is dropped.
    pub fn refresh(&mut self, metas: Vec<SkillMeta>)
        ensures
            final(self)@.metas == metas@,
            final(self)@.loaded.len() == 0,
            registry_wf(final(self)@),
    {
        self.metas = metas;
        self.loaded = Vec::new();
    }

    /// The discovered skills.
    pub fn all_meta(&self) -> (r: &[SkillMeta])
        ensures
            r@ == self@.metas,
    {
        self.metas.as_slice()
    }

    /// Activate a skill by name. An already active one is returned as it is;
    /// otherwise `skill`, the skill as loaded from its file (`None` when it
    /// cannot be), is activated under `name` and returned.
    pub fn activate(&mut self, name: &str, skill: Option<Skill>) -> (r: Option<&Skill>)
        requires
            registry_wf(old(self)@),
        ensures
            registry_wf(final(self)@),
            final(self)@.metas == old(self)@.metas,
            match loaded_index(old(self)@.loaded, name@) {
                Some(i) => final(self)@ == old(self)@ && (r matches Some(s) && s@ == old(self)@.loaded[i].1),
                None => match skill {
                    Some(s) => final(self)@.loaded == old(self)@.loaded.push((name@, s@)) && (r matches Some(t) && t@ == s@),
                    None => final(self)@ == old(self)@ && r is None,
                },
            },
    {
        match self.position(name) {
            Some(i) => Some(&self.loaded[i].1),
            None => match skill {
                None => None,
                Some(s) => {
                    let ghost before = self@.loaded;
                    let ghost sv = s@;
                    proof {
                        lemma_loaded_index(before, name@);
                    }
                    self.loaded.push((to_string(name), s));
                    assert(self@.loaded =~= before.push((name@, sv)));
                    let last = self.loaded.len() - 1;
                    Some(&self.loaded[last].1)
                },
            },
        }
    }

    /// The skill activated under `name`.
    pub fn get(&self, name: &str) -> (r: Option<&Skill>)
        ensures
            match loaded_index(self@.loaded, name@) {
                Some(i) => r matches Some(s) && s@ == self@.loaded[i].1,
                None => r is None,
            },
    {
        match self.position(name) {
            Some(i) => Some(&self.loaded[i].1),
            None => None,
        }
    }

    /// The activated skills, in activation order.
    pub fn activated(&self) -> (r: Vec<&Skill>)
        ensures
            r@.len() == self@.loaded.len(),
            forall|i: int| 0 <= i < r@.len() ==> (#[trigger] r@[i])@ == self@.loaded[i].1,
    {
        let mut r: Vec<&Skill> = Vec::new();
        let mut i: usize = 0;
        while i < self.loaded.len()
            invariant
                i <= self.loaded.len(),
                r@.len() == i,
                forall|j: int| 0 <= j < i ==> (#[trigger] r@[j])@ == self@.loaded[j].1,
            decreases self.loaded.len() - i,
        {
            r.push(&self.loaded[i].1);
            i = i + 1;
        }
        r
    }

    /// Deactivate the skill activated under `name`, if any.
    pub fn deactivate(&mut self, name: &str)
        requires
            registry_wf(old(self)@),
        ensures
            registry_wf(final(self)@),
            final(self)@.metas == old(self)@.metas,
            final(self)@.loaded == match loaded_index(old(self)@.loaded, name@) {
                Some(i) => old(self)@.loaded.remove(i),
                None => old(self)@.loaded,
            },
    {
        let ghost before = self@.loaded;
        match self.position(name) {
            Some(i) => {
                self.loaded.remove(i);
                assert(self@.loaded =~= before.remove(i as int));
                assert forall|a: int, b: int|
                    0 <= a < b < self@.loaded.len() implies (#[trigger] self@.loaded[a]).0 != (
                #[trigger] self@.loaded[b]).0 by {
                    let x = if a < i { a } else { a + 1 };
                    let y = if b < i { b } else { b + 1 };
                    assert(self@.loaded[a] == before[x]);
                    assert(self@.loaded[b] == before[y]);
                }
            },
            None => {},
        }
    }

    /// Deactivate every skill.
    pub fn deactivate_all(&mut self)
        ensures
            final(self)@.metas == old(self)@.metas,
            final(self)@.loaded.len() == 0,
            registry_wf(final(self)@),
    {
        self.loaded = Vec::new();
    }

    /// The activated skills' instructions, one section each under a common
    /// heading, to add to the system prompt; empty when none is active.
    pub fn combined_instructions(&self) -> (r: String)
        ensures
            r@ == combined(self@.loaded),
    {
        if self.loaded.len() == 0 {
            return String::new();
        }
        let ghost ls = self@.loaded;
        let mut out = to_string("\n\n## Active Skills\n\n");
        let mut i: usize = 0;
        while i < self.loaded.len()
            invariant
                i <= self.loaded.len(),
                ls == self@.loaded,
                out@ == "\n\n## Active Skills\n\n"@ + sections(ls.take(i as int)),
            decreases self.loaded.len() - i,
        {
            let s = &self.loaded[i].1;
            push_str(&mut out, "### ");
            push_str(&mut out, s.name.as_str());
            push_str(&mut out, "\n\n");
            push_str(&mut out, s.instructions.as_str());
            push_str(&mut out, "\n\n");
            proof {
                assert(ls.take(i + 1).drop_last() =~= ls.take(i as int));
                assert(ls.take(i + 1).last() == ls[i as int]);
            }
            assert(out@ =~= "\n\n## Active Skills\n\n"@ + sections(ls.take(i + 1)));
            i = i + 1;
        }
        assert(ls.take(i as int) =~= ls);
        out
    }
}

impl Default for SkillRegistry {
    /// A registry with no discovered skills and none activated.
    fn default() -> (r: SkillRegistry)
        ensures
            r@.metas.len() == 0,
            r@.loaded.len() == 0,
            registry_wf(r@),
    {
        SkillRegistry::new(Vec::new())
    }
}

} // verus!
