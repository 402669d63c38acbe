//! Building the metadata index and the content index from what a scan of
//! the corpus found.
use vstd::prelude::*;
use vstd::string::*;
use vstd::multiset::Multiset;
use crate::model::{SkillMeta, SkillIndex, IndexError, ContentIndex, ContentIndexEntry, EntryView};
use crate::text::{string_views, str_lt, str_le, str_eq, compare_str, join2, join3, bytes_of, lemma_seq_total};

verus! {

broadcast use {
    vstd::seq_lib::group_seq_properties,
    vstd::seq_lib::to_multiset_build,
    vstd::seq_lib::to_multiset_insert,
    vstd::multiset::group_multiset_axioms,
};

/// What loading one entry's metadata record gave.
#[derive(Debug, Clone)]
pub enum MetaLoad {
    /// The directory holds no metadata record.
    Missing,
    /// The record parsed; the messages are what semantic validation reported.
    Loaded(SkillMeta, Vec<String>),
    /// The record could not be read or parsed.
    Failed(IndexError),
}

/// One immediate child of the corpus root, as the scan found it.
#[derive(Debug, Clone)]
pub struct CorpusEntry {
    pub name: String,
    pub is_dir: bool,
    pub meta: MetaLoad,
}

/// Whether a name is reserved: it starts with `.` or `_`.
pub open spec fn is_reserved(name: Seq<char>) -> bool {
    name.len() > 0 && (name[0] == '.' || name[0] == '_')
}

/// Whether a scanned child is a skill directory to be loaded.
pub open spec fn is_candidate(e: CorpusEntry) -> bool {
    e.is_dir && !is_reserved(e.name@)
}

/// The load errors that one scanned child contributes, in order.
pub open spec fn entry_errors(e: CorpusEntry) -> Seq<Seq<char>> {
    if !is_candidate(e) {
        Seq::empty()
    } else {
        match e.meta {
            MetaLoad::Missing => seq![e.name@ + ": Missing _meta.json"@],
            MetaLoad::Loaded(_, v) => Seq::new(v@.len(), |i: int| e.name@ + ": "@ + v@[i]@),
            MetaLoad::Failed(err) => seq![e.name@ + ": "@ + err.spec_message()],
        }
    }
}

/// The descriptor that one scanned child contributes, if any.
pub open spec fn entry_skill(e: CorpusEntry) -> Seq<SkillMeta> {
    if !is_candidate(e) {
        Seq::empty()
    } else {
        match e.meta {
            MetaLoad::Loaded(m, _) => seq![m],
            _ => Seq::empty(),
        }
    }
}

/// All load errors of a scan, in scan order.
pub open spec fn scan_errors(s: Seq<CorpusEntry>) -> Seq<Seq<char>>
    decreases s.len(),
{
    if s.len() == 0 {
        Seq::empty()
    } else {
        scan_errors(s.drop_last()) + entry_errors(s.last())
    }
}

/// All loaded descriptors of a scan, in scan order.
pub open spec fn scan_skills(s: Seq<CorpusEntry>) -> Seq<SkillMeta>
    decreases s.len(),
{
    if s.len() == 0 {
        Seq::empty()
    } else {
        scan_skills(s.drop_last()) + entry_skill(s.last())
    }
}

/// Descriptors in ascending order of name.
pub open spec fn sorted_by_name(s: Seq<SkillMeta>) -> bool {
    forall|i: int| 0 <= i < s.len() - 1 ==> str_le(#[trigger] s[i].name@, s[i + 1].name@)
}

fn reserved_name(name: &str) -> (r: bool)
    ensures
        r == is_reserved(name@),
{
    if name.unicode_len() == 0 {
        false
    } else {
        let c = name.get_char(0);
        c == '.' || c == '_'
    }
}

/// Whether a child of the corpus root is a skill directory whose metadata
/// record should be loaded.
pub fn wants_metadata(name: &str, is_dir: bool) -> (r: bool)
    ensures
        r == (is_dir && !is_reserved(name@)),
{
    is_dir && !reserved_name(name)
}

/// The load errors that one scanned child contributes.
fn push_entry_errors(errors: &mut Vec<String>, e: &CorpusEntry)
    ensures
        string_views(final(errors)@) == string_views(old(errors)@)
            + entry_errors(*e),
{
    let ghost start = string_views(errors@);
    if !e.is_dir || reserved_name(e.name.as_str()) {
        assert(string_views(errors@) == start + entry_errors(*e));
        return;
    }
    match &e.meta {
        MetaLoad::Missing => {
            errors.push(join2(e.name.as_str(), ": Missing _meta.json"));
            assert(string_views(errors@) == start + entry_errors(*e));
        },
        MetaLoad::Loaded(_, v) => {
            let mut i: usize = 0;
            while i < v.len()
                invariant
                    i <= v@.len(),
                    string_views(errors@) == start + entry_errors(*e).take(i as int),
                    entry_errors(*e) == Seq::new(v@.len(), |k: int| e.name@ + ": "@ + v@[k]@),
                decreases v@.len() - i,
            {
                let ghost pre = errors@;
                errors.push(join3(e.name.as_str(), ": ", v[i].as_str()));
                assert(string_views(errors@) =~= string_views(pre).push(
                    entry_errors(*e)[i as int],
                ));
                assert(entry_errors(*e).take(i + 1) =~= entry_errors(*e).take(i as int).push(
                    entry_errors(*e)[i as int],
                ));
                assert(string_views(errors@) == start + entry_errors(*e).take(
                    i + 1,
                ));
                i = i + 1;
            }
            assert(entry_errors(*e).take(i as int) == entry_errors(*e));
        },
        MetaLoad::Failed(err) => {
            let m = err.message();
            errors.push(join3(e.name.as_str(), ": ", m.as_str()));
            assert(string_views(errors@) == start + entry_errors(*e));
        },
    }
}

/// Inserts a descriptor after every descriptor whose name is not greater.
fn insert_by_name(v: &mut Vec<SkillMeta>, m: SkillMeta)
    requires
        sorted_by_name(old(v)@),
    ensures
        sorted_by_name(final(v)@),
        final(v)@.to_multiset() == old(v)@.to_multiset().insert(m),
{
    let mut p: usize = 0;
    while p < v.len() && compare_str(m.name.as_str(), v[p].name.as_str()) != -1
        invariant
            p <= v@.len(),
            forall|k: int| 0 <= k < p ==> !str_lt(m.name@, #[trigger] v@[k].name@),
        decreases v@.len() - p,
    {
        p = p + 1;
    }
    let ghost before = v@;
    proof {
        if p > 0 {
            lemma_seq_total(bytes_of(m.name@), bytes_of(before[p - 1].name@));
        }
    }
    v.insert(p, m);
    assert forall|i: int| 0 <= i < v@.len() - 1 implies str_le(
        #[trigger] v@[i].name@,
        v@[i + 1].name@,
    ) by {
        if i < p - 1 {
            assert(v@[i] == before[i] && v@[i + 1] == before[i + 1]);
        } else if i == p - 1 {
        } else if i == p {
        } else {
            assert(v@[i] == before[i - 1] && v@[i + 1] == before[i]);
        }
    }
}

/// Whether `r` is the metadata index of a scan: the loaded descriptors
/// sorted by name, and every load error in scan order.
pub open spec fn indexes_scan(entries: Seq<CorpusEntry>, r: SkillIndex) -> bool {
    &&& sorted_by_name(r.skills@)
    &&& r.skills@.to_multiset() == scan_skills(entries).to_multiset()
    &&& string_views(r.errors@) == scan_errors(entries)
}

/// Builds the metadata index from the children of the corpus root, in the
/// order the scan found them. Every candidate directory contributes its
/// errors; only the loaded descriptors enter the index, sorted by name.
pub fn build_skill_index(entries: Vec<CorpusEntry>) -> (r: SkillIndex)
    ensures
        indexes_scan(entries@, r),
{
    let ghost all = entries@;
    let mut errors: Vec<String> = Vec::new();
    let mut i: usize = 0;
    while i < entries.len()
        invariant
            i <= entries@.len(),
            entries@ == all,
            string_views(errors@) == scan_errors(all.take(i as int)),
        decreases entries@.len() - i,
    {
        push_entry_errors(&mut errors, &entries[i]);
        assert(all.take(i + 1).drop_last() == all.take(i as int));
        i = i + 1;
    }
    assert(all.take(i as int) == all);
    let mut rest = entries;
    let mut skills: Vec<SkillMeta> = Vec::new();
    while rest.len() > 0
        invariant
            sorted_by_name(skills@),
            skills@.to_multiset().add(scan_skills(rest@).to_multiset()) == scan_skills(
                all,
            ).to_multiset(),
        decreases rest@.len(),
    {
        let ghost prev = rest@;
        match rest.pop() {
            Some(e) => {
                assert(prev.drop_last() == rest@);
                let ghost es = entry_skill(e);
                assert(scan_skills(prev) == scan_skills(rest@) + es);
                proof {
                    vstd::seq_lib::lemma_multiset_commutative(scan_skills(rest@), es);
                }
                if e.is_dir && !reserved_name(e.name.as_str()) {
                    match e.meta {
                        MetaLoad::Loaded(m, _) => {
                            assert(es == seq![m]);
                            assert(es.to_multiset() == Seq::<SkillMeta>::empty().push(m).to_multiset());
                            insert_by_name(&mut skills, m);
                        },
                        _ => {
                            assert(es.len() == 0);
                        },
                    }
                } else {
                    assert(es.len() == 0);
                }
            },
            None => {},
        }
    }
    assert(rest@.len() == 0);
    assert(scan_skills(rest@).to_multiset() =~= Multiset::<SkillMeta>::empty());
    assert(skills@.to_multiset() == scan_skills(all).to_multiset());
    SkillIndex::with_skills(skills, errors)
}

/// A regular file found under a skill's references directory.
#[derive(Debug, Clone)]
pub struct RefFile {
    /// Path relative to the skill's directory.
    pub path: String,
    /// The file name's extension, if it has one.
    pub extension: Option<String>,
    /// The text, when the file could be read.
    pub content: Option<String>,
}

/// What reading one skill's documents gave; `None` where a file was absent
/// or unreadable.
#[derive(Debug, Clone)]
pub struct SkillFiles {
    pub main: Option<String>,
    /// One reading per declared sub-skill, in declaration order.
    pub subs: Vec<Option<String>>,
    pub references: Vec<RefFile>,
}

/// The fixed name of a skill's main document.
pub open spec fn main_doc_name() -> Seq<char> {
    "SKILL.md"@
}

/// Whether an extension marks a markup document.
pub open spec fn is_markup(ext: Option<String>) -> bool {
    match ext {
        Some(e) => e@ == "md"@ || e@ == "markdown"@,
        None => false,
    }
}

/// The reading of the `k`-th sub-skill's file, if any.
pub open spec fn sub_text(f: SkillFiles, k: int) -> Option<String> {
    if 0 <= k < f.subs@.len() {
        f.subs@[k]
    } else {
        None
    }
}

/// Entries for the main document.
pub open spec fn main_units(m: SkillMeta, f: SkillFiles) -> Seq<EntryView> {
    match f.main {
        Some(t) => seq![EntryView { skill: m.name@, sub_skill: None, path: main_doc_name(), content: t@ }],
        None => Seq::empty(),
    }
}

/// Entries for the first `n` declared sub-skills.
pub open spec fn sub_units(m: SkillMeta, f: SkillFiles, n: int) -> Seq<EntryView>
    decreases n,
{
    if n <= 0 {
        Seq::empty()
    } else {
        sub_units(m, f, n - 1) + match sub_text(f, n - 1) {
            Some(t) => seq![
                EntryView {
                    skill: m.name@,
                    sub_skill: Some(m.sub_list()[n - 1].name@),
                    path: m.sub_list()[n - 1].file@,
                    content: t@,
                },
            ],
            None => Seq::empty(),
        }
    }
}

/// Entries for the first `n` files under the references directory.
pub open spec fn ref_units(name: Seq<char>, refs: Seq<RefFile>, n: int) -> Seq<EntryView>
    decreases n,
{
    if n <= 0 {
        Seq::empty()
    } else {
        ref_units(name, refs, n - 1) + match refs[n - 1].content {
            Some(t) => if is_markup(refs[n - 1].extension) {
                seq![EntryView { skill: name, sub_skill: None, path: refs[n - 1].path@, content: t@ }]
            } else {
                Seq::empty()
            },
            None => Seq::empty(),
        }
    }
}

/// Entries for one skill: its main document, its sub-skills, its references.
pub open spec fn skill_units(m: SkillMeta, f: SkillFiles) -> Seq<EntryView> {
    main_units(m, f) + sub_units(m, f, m.sub_list().len() as int) + ref_units(
        m.name@,
        f.references@,
        f.references@.len() as int,
    )
}

/// The readings that belong to the `i`-th skill.
pub open spec fn files_at(files: Seq<SkillFiles>, i: int) -> Option<SkillFiles> {
    if 0 <= i < files.len() {
        Some(files[i])
    } else {
        None
    }
}

/// Entries for the first `n` skills of the index.
pub open spec fn content_units(skills: Seq<SkillMeta>, files: Seq<SkillFiles>, n: int) -> Seq<
    EntryView,
>
    decreases n,
{
    if n <= 0 {
        Seq::empty()
    } else {
        content_units(skills, files, n - 1) + match files_at(files, n - 1) {
            Some(f) => skill_units(skills[n - 1], f),
            None => Seq::empty(),
        }
    }
}

fn markup_extension(ext: &Option<String>) -> (r: bool)
    ensures
        r == is_markup(*ext),
{
    match ext {
        Some(e) => str_eq(e.as_str(), "md") || str_eq(e.as_str(), "markdown"),
        None => false,
    }
}

fn add_skill_units(index: &mut ContentIndex, m: &SkillMeta, f: &SkillFiles)
    ensures
        final(index)@ == old(index)@ + skill_units(*m, *f),
{
    let ghost start = index@;
    match &f.main {
        Some(t) => {
            index.insert(
                ContentIndexEntry::new(m.name.clone(), None, String::from_str("SKILL.md"), t.clone()),
            );
        },
        None => {},
    }
    assert(index@ == start + main_units(*m, *f));
    let ghost after_main = index@;
    match &m.sub_skills {
        Some(subs) => {
            let mut k: usize = 0;
            while k < subs.len()
                invariant
                    m.sub_list() == subs@,
                    k <= subs@.len(),
                    index@ == after_main + sub_units(*m, *f, k as int),
                decreases subs@.len() - k,
            {
                if k < f.subs.len() {
                    match &f.subs[k] {
                        Some(t) => {
                            index.insert(
                                ContentIndexEntry::new(
                                    m.name.clone(),
                                    Some(subs[k].name.clone()),
                                    subs[k].file.clone(),
                                    t.clone(),
                                ),
                            );
                        },
                        None => {},
                    }
                }
                k = k + 1;
            }
        },
        None => {},
    }
    assert(index@ == after_main + sub_units(*m, *f, m.sub_list().len() as int));
    let ghost after_subs = index@;
    let mut j: usize = 0;
    while j < f.references.len()
        invariant
            j <= f.references@.len(),
            index@ == after_subs + ref_units(m.name@, f.references@, j as int),
        decreases f.references@.len() - j,
    {
        let r = &f.references[j];
        match &r.content {
            Some(t) => {
                if markup_extension(&r.extension) {
                    index.insert(ContentIndexEntry::new(m.name.clone(), None, r.path.clone(), t.clone()));
                }
            },
            None => {},
        }
        j = j + 1;
    }
}

/// Builds the content index for a metadata index from the readings of each
/// skill's documents, given in index order. A file that was absent or
/// unreadable yields no entry; so do reference files that are not markup.
pub fn build_content_index(skill_index: &SkillIndex, files: &Vec<SkillFiles>) -> (r: ContentIndex)
    ensures
        r@ == content_units(skill_index.skills@, files@, skill_index.skills@.len() as int),
{
    let mut index = ContentIndex::new();
    let mut i: usize = 0;
    while i < skill_index.skills.len()
        invariant
            i <= skill_index.skills@.len(),
            index@ == content_units(skill_index.skills@, files@, i as int),
        decreases skill_index.skills@.len() - i,
    {
        if i < files.len() {
            add_skill_units(&mut index, &skill_index.skills[i], &files[i]);
        }
        i = i + 1;
    }
    index
}

/// Whether an indexed unit belongs to a descriptor: same skill name, and a
/// sub-skill unit names a declared sub-skill whose file is the unit's path.
pub open spec fn owned_by(u: EntryView, m: SkillMeta) -> bool {
    &&& u.skill == m.name@
    &&& match u.sub_skill {
        Some(n) => exists|j: int|
            0 <= j < m.sub_list().len() && #[trigger] m.sub_list()[j].name@ == n && m.sub_list()[j].file@
                == u.path,
        None => true,
    }
}

/// Whether an indexed unit belongs to one of the descriptors.
pub open spec fn belongs(u: EntryView, skills: Seq<SkillMeta>) -> bool {
    exists|i: int| 0 <= i < skills.len() && owned_by(u, #[trigger] skills[i])
}

/// Whether a content index is the one built for a metadata index from some
/// readings of its documents.
pub open spec fn built_from(s: SkillIndex, c: ContentIndex) -> bool {
    exists|f: Seq<SkillFiles>| c@ == content_units(s.skills@, f, s.skills@.len() as int)
}

proof fn lemma_sub_units_owner(m: SkillMeta, f: SkillFiles, n: int)
    requires
        n <= m.sub_list().len(),
    ensures
        forall|j: int| 0 <= j < sub_units(m, f, n).len() ==> owned_by(#[trigger] sub_units(m, f, n)[j], m),
    decreases n,
{
    if n > 0 {
        lemma_sub_units_owner(m, f, n - 1);
        let prev = sub_units(m, f, n - 1);
        let all = sub_units(m, f, n);
        assert forall|j: int| 0 <= j < all.len() implies owned_by(#[trigger] all[j], m) by {
            if j < prev.len() {
                assert(all[j] == prev[j]);
            } else {
                assert(m.sub_list()[n - 1].name@ == m.sub_list()[n - 1].name@);
            }
        }
    }
}

proof fn lemma_ref_units_owner(m: SkillMeta, refs: Seq<RefFile>, n: int)
    ensures
        forall|j: int|
            0 <= j < ref_units(m.name@, refs, n).len() ==> owned_by(#[trigger] ref_units(m.name@, refs, n)[j], m),
    decreases n,
{
    if n > 0 {
        lemma_ref_units_owner(m, refs, n - 1);
        let prev = ref_units(m.name@, refs, n - 1);
        let all = ref_units(m.name@, refs, n);
        assert forall|j: int| 0 <= j < all.len() implies owned_by(#[trigger] all[j], m) by {
            if j < prev.len() {
                assert(all[j] == prev[j]);
            }
        }
    }
}

/// Cross-index consistency: every entry of a content index built for a
/// metadata index belongs to a skill of that index, and an entry of a
/// sub-skill names one that the skill declares, with that sub-skill's file.
pub proof fn lemma_content_belongs_to_index(skills: Seq<SkillMeta>, files: Seq<SkillFiles>, n: int)
    requires
        0 <= n <= skills.len(),
    ensures
        forall|j: int|
            0 <= j < content_units(skills, files, n).len() ==> exists|i: int|
                0 <= i < n && owned_by(#[trigger] content_units(skills, files, n)[j], skills[i]),
    decreases n,
{
    if n > 0 {
        lemma_content_belongs_to_index(skills, files, n - 1);
        let prev = content_units(skills, files, n - 1);
        let all = content_units(skills, files, n);
        match files_at(files, n - 1) {
            Some(f) => {
                let m = skills[n - 1];
                lemma_sub_units_owner(m, f, m.sub_list().len() as int);
                lemma_ref_units_owner(m, f.references@, f.references@.len() as int);
                assert forall|j: int| 0 <= j < all.len() implies exists|i: int|
                    0 <= i < n && owned_by(#[trigger] all[j], skills[i]) by {
                    if j < prev.len() {
                        assert(all[j] == prev[j]);
                        let i0 = choose|i: int| 0 <= i < n - 1 && owned_by(prev[j], skills[i]);
                        assert(0 <= i0 < n && owned_by(all[j], skills[i0]));
                    } else {
                        let u = skill_units(m, f);
                        assert(all[j] == u[j - prev.len()]);
                        let a = main_units(m, f);
                        let b = sub_units(m, f, m.sub_list().len() as int);
                        let c = ref_units(m.name@, f.references@, f.references@.len() as int);
                        let q = j - prev.len();
                        if q < a.len() {
                            assert(u[q] == a[q]);
                        } else if q < a.len() + b.len() {
                            assert(u[q] == b[q - a.len()]);
                        } else {
                            assert(u[q] == c[q - a.len() - b.len()]);
                        }
                        assert(owned_by(all[j], skills[n - 1]));
                    }
                }
            },
            None => {
                assert(all == prev);
            },
        }
    }
}

/// Cross-index consistency of a built pair: every entry of the content
/// index belongs to a skill of the metadata index, and an entry of a
/// sub-skill names one that the skill declares, with that sub-skill's file.
pub proof fn lemma_built_content_consistent(s: SkillIndex, c: ContentIndex)
    requires
        built_from(s, c),
    ensures
        forall|j: int| 0 <= j < c@.len() ==> belongs(#[trigger] c@[j], s.skills@),
{
    let f = choose|f: Seq<SkillFiles>| c@ == content_units(s.skills@, f, s.skills@.len() as int);
    lemma_content_belongs_to_index(s.skills@, f, s.skills@.len() as int);
    let units = content_units(s.skills@, f, s.skills@.len() as int);
    assert forall|j: int| 0 <= j < c@.len() implies belongs(#[trigger] c@[j], s.skills@) by {
        assert(c@[j] == units[j]);
        let i0 = choose|i: int| 0 <= i < s.skills@.len() && owned_by(units[j], s.skills@[i]);
        assert(owned_by(c@[j], s.skills@[i0]));
    }
}

/// A candidate directory without a metadata record contributes no
/// descriptor and exactly one error, which starts with its name.
pub proof fn lemma_missing_meta(e: CorpusEntry)
    requires
        is_candidate(e),
        e.meta is Missing,
    ensures
        entry_skill(e).len() == 0,
        entry_errors(e).len() == 1,
        entry_errors(e)[0] == e.name@ + ": Missing _meta.json"@,
        entry_errors(e)[0].take(e.name@.len() as int) == e.name@,
{
    assert((e.name@ + ": Missing _meta.json"@).take(e.name@.len() as int) =~= e.name@);
}

/// When the loaded descriptors of a scan have pairwise distinct names, the
/// index lists them in strictly ascending order of name: no name twice.
pub proof fn lemma_names_strictly_ascending(entries: Seq<CorpusEntry>, r: SkillIndex)
    requires
        indexes_scan(entries, r),
        forall|i: int, j: int|
            0 <= i < j < scan_skills(entries).len() ==> (#[trigger] scan_skills(entries)[i]).name@
                != (#[trigger] scan_skills(entries)[j]).name@,
    ensures
        forall|i: int|
            0 <= i < r.skills@.len() - 1 ==> str_lt(#[trigger] r.skills@[i].name@, r.skills@[i + 1].name@),
{
    let s = scan_skills(entries);
    let v = r.skills@;
    assert(s.no_duplicates()) by {
        assert forall|i: int, j: int| 0 <= i < s.len() && 0 <= j < s.len() && i != j implies s[i] != s[j] by {
            if i < j {
                assert(s[i].name@ != s[j].name@);
            } else {
                assert(s[j].name@ != s[i].name@);
            }
        }
    }
    s.lemma_multiset_has_no_duplicates();
    assert forall|i: int| 0 <= i < v.len() - 1 implies str_lt(#[trigger] v[i].name@, v[i + 1].name@) by {
        let x = v[i];
        let y = v[i + 1];
        if !str_lt(x.name@, y.name@) {
            assert(bytes_of(x.name@) == bytes_of(y.name@));
            vstd::utf8::encode_utf8_decode_utf8(x.name@);
            vstd::utf8::encode_utf8_decode_utf8(y.name@);
            assert(x.name@ == y.name@);
            let pre = v.take(i);
            let mid = seq![x, y];
            let post = v.skip(i + 2);
            assert(v =~= pre + mid + post);
            vstd::seq_lib::lemma_multiset_commutative(pre + mid, post);
            vstd::seq_lib::lemma_multiset_commutative(pre, mid);
            vstd::seq_lib::lemma_multiset_commutative(seq![x], seq![y]);
            assert(seq![x] + seq![y] =~= mid);
            vstd::seq_lib::to_multiset_contains(v, x);
            vstd::seq_lib::to_multiset_contains(v, y);
            vstd::seq_lib::to_multiset_contains(s, x);
            vstd::seq_lib::to_multiset_contains(s, y);
            assert(v.contains(x)) by { assert(v[i] == x); }
            assert(v.contains(y)) by { assert(v[i + 1] == y); }
            if x == y {
                assert(seq![x].to_multiset().count(x) == 1) by {
                    assert(seq![x] =~= Seq::<SkillMeta>::empty().push(x));
                }
                assert(mid.to_multiset().count(x) == 2);
                assert(v.to_multiset().count(x) >= 2);
                assert(s.to_multiset().contains(x));
            } else {
                let p = choose|p: int| 0 <= p < s.len() && s[p] == x;
                let q = choose|q: int| 0 <= q < s.len() && s[q] == y;
                if p < q {
                    assert(s[p].name@ != s[q].name@);
                } else if q < p {
                    assert(s[q].name@ != s[p].name@);
                }
            }
        }
    }
}

/// A corpus whose directory names are distinct and whose metadata records
/// each carry their directory's name.
pub open spec fn well_named(entries: Seq<CorpusEntry>) -> bool {
    &&& forall|q: int|
        0 <= q < entries.len() ==> match (#[trigger] entries[q]).meta {
            MetaLoad::Loaded(m, _) => m.name@ == entries[q].name@,
            _ => true,
        }
    &&& forall|p: int, q: int|
        0 <= p < q < entries.len() ==> (#[trigger] entries[p]).name@ != (#[trigger] entries[q]).name@
}

/// In a well-named corpus, each loaded descriptor comes from an entry of its
/// own name, and no two loaded descriptors share a name.
proof fn lemma_scan_names(s: Seq<CorpusEntry>)
    requires
        well_named(s),
    ensures
        forall|i: int|
            0 <= i < scan_skills(s).len() ==> exists|q: int|
                0 <= q < s.len() && entry_skill(s[q]) == seq![scan_skills(s)[i]]
                    && (#[trigger] scan_skills(s)[i]).name@ == s[q].name@,
        forall|i: int, j: int|
            0 <= i < j < scan_skills(s).len() ==> (#[trigger] scan_skills(s)[i]).name@
                != (#[trigger] scan_skills(s)[j]).name@,
    decreases s.len(),
{
    if s.len() > 0 {
        let t = s.drop_last();
        assert forall|q: int| 0 <= q < t.len() implies t[q] == s[q] by {}
        lemma_scan_names(t);
        let ss = scan_skills(s);
        let st = scan_skills(t);
        let es = entry_skill(s.last());
        assert(ss == st + es);
        let n = s.len() - 1;
        assert forall|i: int| 0 <= i < ss.len() implies exists|q: int|
            0 <= q < s.len() && entry_skill(s[q]) == seq![ss[i]] && (#[trigger] ss[i]).name@ == s[q].name@ by {
            if i < st.len() {
                assert(ss[i] == st[i]);
                let q = choose|q: int|
                    0 <= q < t.len() && entry_skill(t[q]) == seq![st[i]] && st[i].name@ == t[q].name@;
                assert(t[q] == s[q]);
            } else {
                assert(ss[i] == es[0]);
                assert(es == seq![ss[i]]);
                assert(0 <= n < s.len() && entry_skill(s[n]) == seq![ss[i]]);
                match s[n].meta {
                    MetaLoad::Loaded(m, _) => {
                        assert(ss[i].name@ == s[n].name@);
                    },
                    _ => {},
                }
            }
        }
        assert forall|i: int, j: int| 0 <= i < j < ss.len() implies (#[trigger] ss[i]).name@
            != (#[trigger] ss[j]).name@ by {
            if j < st.len() {
                assert(ss[i] == st[i] && ss[j] == st[j]);
            } else {
                assert(ss[i] == st[i]);
                let q = choose|q: int|
                    0 <= q < t.len() && entry_skill(t[q]) == seq![st[i]] && st[i].name@ == t[q].name@;
                assert(t[q] == s[q]);
                assert(ss[j] == es[0]);
                match s[n].meta {
                    MetaLoad::Loaded(m, _) => {
                        assert(ss[j].name@ == s[n].name@);
                    },
                    _ => {},
                }
                assert(s[q].name@ != s[n].name@);
            }
        }
    }
}

/// In a well-named corpus the index lists its skills in strictly ascending
/// order of name: sorted, and no name twice.
pub proof fn lemma_well_named_strictly_ascending(entries: Seq<CorpusEntry>, r: SkillIndex)
    requires
        well_named(entries),
        indexes_scan(entries, r),
    ensures
        forall|i: int|
            0 <= i < r.skills@.len() - 1 ==> str_lt(#[trigger] r.skills@[i].name@, r.skills@[i + 1].name@),
{
    lemma_scan_names(entries);
    lemma_names_strictly_ascending(entries, r);
}

/// In a well-named corpus, a candidate directory without a metadata record
/// leaves no skill of its name in the index, and adds exactly one error.
pub proof fn lemma_missing_meta_excluded(entries: Seq<CorpusEntry>, r: SkillIndex, p: int)
    requires
        well_named(entries),
        indexes_scan(entries, r),
        0 <= p < entries.len(),
        is_candidate(entries[p]),
        entries[p].meta is Missing,
    ensures
        forall|k: int| 0 <= k < r.skills@.len() ==> (#[trigger] r.skills@[k]).name@ != entries[p].name@,
        entry_errors(entries[p]) == seq![entries[p].name@ + ": Missing _meta.json"@],
{
    lemma_scan_names(entries);
    let ss = scan_skills(entries);
    assert forall|k: int| 0 <= k < r.skills@.len() implies (#[trigger] r.skills@[k]).name@
        != entries[p].name@ by {
        let x = r.skills@[k];
        vstd::seq_lib::to_multiset_contains(r.skills@, x);
        vstd::seq_lib::to_multiset_contains(ss, x);
        assert(r.skills@.contains(x));
        let i = choose|i: int| 0 <= i < ss.len() && ss[i] == x;
        let q = choose|q: int|
            0 <= q < entries.len() && entry_skill(entries[q]) == seq![ss[i]] && ss[i].name@ == entries[q].name@;
        assert(entry_skill(entries[p]).len() == 0);
        assert(q != p);
        if q < p {
            assert(entries[q].name@ != entries[p].name@);
        } else {
            assert(entries[p].name@ != entries[q].name@);
        }
    }
}

} // verus!
