//! What the request layer hands out and takes in, and the computations
//! behind its handlers.
use vstd::prelude::*;
use crate::model::{SkillMeta, SkillIndex, SkillContent, IndexError, ContentIndex, FileRead};
use crate::store::{SkillIndexer, first_named};
use crate::text::join3;
use crate::search::{SearchOptions, SearchResult, DEFAULT_LIMIT, effective_limit, search};
use crate::text::copy_strings;

verus! {

/// One line of the skill listing.
#[derive(Debug, Clone)]
pub struct SkillListItem {
    pub name: String,
    pub description: String,
    pub tags: Vec<String>,
    pub sub_skills: Vec<String>,
    /// The main document and one file per sub-skill.
    pub file_count: usize,
}

/// The full detail of one skill.
#[derive(Debug, Clone)]
pub struct SkillDetails {
    pub name: String,
    pub description: String,
    pub content: String,
    pub tags: Vec<String>,
    pub sub_skills: Vec<SubSkillInfo>,
    pub has_references: bool,
}

/// A sub-skill as the detail view shows it.
#[derive(Debug, Clone)]
pub struct SubSkillInfo {
    pub name: String,
    pub file: String,
    pub triggers: Vec<String>,
}

/// A request to create a skill.
#[derive(Debug, Clone)]
pub struct CreateSkillRequest {
    pub name: String,
    pub description: String,
    pub content: String,
    pub tags: Vec<String>,
}

/// A request to change a skill; absent fields stay as they are.
#[derive(Debug, Clone)]
pub struct UpdateSkillRequest {
    pub description: Option<String>,
    pub content: Option<String>,
    pub tags: Option<Vec<String>>,
}

/// The outcome of a reload.
#[derive(Debug, Clone)]
pub struct ReloadResponse {
    pub success: bool,
    pub skill_count: usize,
}

/// A search request.
#[derive(Debug, Clone)]
pub struct SearchQuery {
    pub q: String,
    pub limit: usize,
}

/// The limit of a search request that names none.
pub fn default_limit() -> (r: usize)
    ensures
        r == DEFAULT_LIMIT,
{
    DEFAULT_LIMIT
}

/// The number of files of a skill: its main document and one per sub-skill.
pub open spec fn file_count_of(m: SkillMeta) -> int {
    if m.sub_list().len() + 1 > usize::MAX {
        usize::MAX as int
    } else {
        m.sub_list().len() + 1 as int
    }
}

/// Whether a listing line shows a descriptor.
pub open spec fn lists(item: SkillListItem, m: SkillMeta) -> bool {
    &&& item.name == m.name
    &&& item.description == m.description
    &&& item.tags@ == m.tags@
    &&& item.sub_skills@.len() == m.sub_list().len()
    &&& forall|j: int| 0 <= j < item.sub_skills@.len() ==> #[trigger] item.sub_skills@[j] == m.sub_list()[j].name
    &&& item.file_count == file_count_of(m)
}

fn list_item(m: &SkillMeta) -> (r: SkillListItem)
    ensures
        lists(r, *m),
{
    let names = m.sub_skill_names();
    let n = names.len();
    SkillListItem {
        name: m.name.clone(),
        description: m.description.clone(),
        tags: copy_strings(&m.tags),
        sub_skills: names,
        file_count: n.saturating_add(1),
    }
}

/// The listing of a metadata index, in index order.
pub fn list_skills(index: &SkillIndex) -> (r: Vec<SkillListItem>)
    ensures
        r@.len() == index.skills@.len(),
        forall|i: int| 0 <= i < r@.len() ==> lists(#[trigger] r@[i], index.skills@[i]),
{
    let mut r: Vec<SkillListItem> = Vec::new();
    let mut i: usize = 0;
    while i < index.skills.len()
        invariant
            i <= index.skills@.len(),
            r@.len() == i,
            forall|k: int| 0 <= k < i ==> lists(#[trigger] r@[k], index.skills@[k]),
        decreases index.skills@.len() - i,
    {
        r.push(list_item(&index.skills[i]));
        i = i + 1;
    }
    r
}

/// Whether a detail entry shows a sub-skill.
pub open spec fn shows_sub(info: SubSkillInfo, m: SkillMeta, j: int) -> bool {
    &&& info.name == m.sub_list()[j].name
    &&& info.file == m.sub_list()[j].file
    &&& info.triggers@ == m.sub_list()[j].triggers@
}

/// The sub-skills of a descriptor as the detail view shows them.
pub fn sub_skill_infos(m: &SkillMeta) -> (r: Vec<SubSkillInfo>)
    ensures
        r@.len() == m.sub_list().len(),
        forall|j: int| 0 <= j < r@.len() ==> shows_sub(#[trigger] r@[j], *m, j),
{
    let mut r: Vec<SubSkillInfo> = Vec::new();
    match &m.sub_skills {
        Some(v) => {
            let mut j: usize = 0;
            while j < v.len()
                invariant
                    m.sub_list() == v@,
                    j <= v@.len(),
                    r@.len() == j,
                    forall|k: int| 0 <= k < j ==> shows_sub(#[trigger] r@[k], *m, k),
                decreases v@.len() - j,
            {
                let s = &v[j];
                r.push(SubSkillInfo { name: s.name.clone(), file: s.file.clone(), triggers: copy_strings(&s.triggers) });
                j = j + 1;
            }
        },
        None => {},
    }
    r
}

/// The detail of a skill: its descriptor with the text and references flag
/// of its main document.
pub fn skill_details(m: &SkillMeta, content: SkillContent) -> (r: SkillDetails)
    ensures
        r.name == m.name,
        r.description == m.description,
        r.content == content.content,
        r.tags@ == m.tags@,
        r.sub_skills@.len() == m.sub_list().len(),
        forall|j: int| 0 <= j < r.sub_skills@.len() ==> shows_sub(#[trigger] r.sub_skills@[j], *m, j),
        r.has_references == content.has_references,
{
    SkillDetails {
        name: m.name.clone(),
        description: m.description.clone(),
        content: content.content,
        tags: copy_strings(&m.tags),
        sub_skills: sub_skill_infos(m),
        has_references: content.has_references,
    }
}

/// Whether a detail shows a descriptor with the given main document.
pub open spec fn details_of(d: SkillDetails, m: SkillMeta, text: String, has_references: bool) -> bool {
    &&& d.name == m.name
    &&& d.description == m.description
    &&& d.content == text
    &&& d.tags@ == m.tags@
    &&& d.sub_skills@.len() == m.sub_list().len()
    &&& forall|j: int| 0 <= j < d.sub_skills@.len() ==> shows_sub(#[trigger] d.sub_skills@[j], m, j)
    &&& d.has_references == has_references
}

/// The detail of the skill with the given name in the current index, with
/// its main document as read from disk. An unknown name is not found.
pub fn get_skill(indexer: &SkillIndexer, name: &str, main: FileRead, has_references: bool) -> (r: Result<
    SkillDetails,
    IndexError,
>)
    ensures
        (forall|k: int|
            0 <= k < indexer.spec_skill_index().skills@.len()
                ==> #[trigger] indexer.spec_skill_index().skills@[k].name@ != name@) ==> match r {
            Err(IndexError::NotFound(m)) => m@ == "Skill '"@ + name@ + "' not found"@,
            _ => false,
        },
        forall|i: int|
            first_named(indexer.spec_skill_index().skills@, name@, i) ==> match main {
                FileRead::Text(t) => match r {
                    Ok(d) => details_of(d, indexer.spec_skill_index().skills@[i], t, has_references),
                    Err(_) => false,
                },
                FileRead::Missing => match r {
                    Err(IndexError::NotFound(_)) => true,
                    _ => false,
                },
                FileRead::Failed(x) => r == Err::<SkillDetails, IndexError>(IndexError::ReadError(x)),
            },
{
    match indexer.get_skill_meta(name) {
        None => Err(IndexError::NotFound(join3("Skill '", name, "' not found"))),
        Some(m) => {
            let ghost skills = indexer.spec_skill_index().skills@;
            proof {
                assert forall|i: int| first_named(skills, name@, i) implies skills[i] == *m by {
                    let i0 = choose|i0: int|
                        0 <= i0 < skills.len() && skills[i0] == *m && m.name@ == name@ && forall|k: int|
                            0 <= k < i0 ==> #[trigger] skills[k].name@ != name@;
                    if i < i0 {
                        assert(skills[i].name@ != name@);
                    } else if i0 < i {
                        assert(skills[i0].name@ != name@);
                    }
                }
            }
            match indexer.read_skill_content(name, main, has_references) {
                Ok(c) => Ok(skill_details(m, c)),
                Err(e) => Err(e),
            }
        },
    }
}

/// The descriptor written for a new skill: no sub-skills, no source.
pub fn new_skill_meta(req: &CreateSkillRequest) -> (r: SkillMeta)
    ensures
        r.name == req.name,
        r.description == req.description,
        r.tags@ == req.tags@,
        r.sub_skills is None,
        r.source is None,
{
    SkillMeta {
        name: req.name.clone(),
        description: req.description.clone(),
        tags: copy_strings(&req.tags),
        sub_skills: None,
        source: None,
    }
}

/// The detail returned for a newly created skill.
pub fn created_details(req: CreateSkillRequest) -> (r: SkillDetails)
    ensures
        r.name == req.name,
        r.description == req.description,
        r.content == req.content,
        r.tags == req.tags,
        r.sub_skills@.len() == 0,
        !r.has_references,
{
    SkillDetails {
        name: req.name,
        description: req.description,
        content: req.content,
        tags: req.tags,
        sub_skills: Vec::new(),
        has_references: false,
    }
}

/// A descriptor with the fields that an update request names replaced.
pub fn apply_update(m: SkillMeta, req: UpdateSkillRequest) -> (r: SkillMeta)
    ensures
        r.name == m.name,
        r.description == (match req.description {
            Some(d) => d,
            None => m.description,
        }),
        r.tags == (match req.tags {
            Some(t) => t,
            None => m.tags,
        }),
        r.sub_skills == m.sub_skills,
        r.source == m.source,
{
    let mut m = m;
    match req.description {
        Some(d) => {
            m.description = d;
        },
        None => {},
    }
    match req.tags {
        Some(t) => {
            m.tags = t;
        },
        None => {},
    }
    m
}

/// The response to a reload: the skill count on success, nothing on failure.
pub fn reload_index(result: &Result<(), IndexError>, index: &SkillIndex) -> (r: ReloadResponse)
    ensures
        r.success == result is Ok,
        r.skill_count == (if result is Ok { index.skills@.len() } else { 0 }),
{
    match result {
        Ok(()) => ReloadResponse { success: true, skill_count: index.len() },
        Err(_) => ReloadResponse { success: false, skill_count: 0 },
    }
}

/// Runs a search request against a content index.
pub fn search_skills(index: &ContentIndex, query: &SearchQuery) -> (r: Vec<SearchResult>)
    ensures
        exists|idx: Seq<usize>|
            crate::search::is_top(
                index@,
                crate::search::query_scores(index@, query.q@),
                effective_limit(query.limit) as int,
                idx,
            ) && crate::search::results_match(index@, crate::search::query_scores(index@, query.q@), idx, r@),
{
    let options = SearchOptions::with_limit(query.limit);
    search(index, query.q.as_str(), &options)
}

} // verus!
