//! The data held by the indexes and handed to readers.
use vstd::prelude::*;
use crate::text::{join2, str_eq};

verus! {

/// A separately stored child document of a skill.
#[derive(Debug, Clone)]
pub struct SubSkillMeta {
    pub name: String,
    /// Path of the document, relative to the skill's directory.
    pub file: String,
    pub triggers: Vec<String>,
}

/// One corpus entry's descriptor.
#[derive(Debug, Clone)]
pub struct SkillMeta {
    pub name: String,
    pub description: String,
    pub tags: Vec<String>,
    pub sub_skills: Option<Vec<SubSkillMeta>>,
    pub source: Option<String>,
}

impl SkillMeta {
    /// The declared sub-skills, empty when none are declared.
    pub open spec fn sub_list(&self) -> Seq<SubSkillMeta> {
        match &self.sub_skills {
            Some(v) => v@,
            None => Seq::empty(),
        }
    }

    /// Whether at least one sub-skill is declared.
    pub fn has_sub_skills(&self) -> (r: bool)
        ensures
            r == (self.sub_list().len() > 0),
    {
        match &self.sub_skills {
            Some(v) => v.len() > 0,
            None => false,
        }
    }

    /// The names of the declared sub-skills, in declaration order.
    pub fn sub_skill_names(&self) -> (r: Vec<String>)
        ensures
            r@.len() == self.sub_list().len(),
            forall|i: int| 0 <= i < r@.len() ==> #[trigger] r@[i] == self.sub_list()[i].name,
    {
        let mut r: Vec<String> = Vec::new();
        match &self.sub_skills {
            Some(v) => {
                let mut i: usize = 0;
                while i < v.len()
                    invariant
                        self.sub_list() == v@,
                        i <= v@.len(),
                        r@.len() == i,
                        forall|k: int| 0 <= k < i ==> #[trigger] r@[k] == v@[k].name,
                    decreases v@.len() - i,
                {
                    r.push(v[i].name.clone());
                    i = i + 1;
                }
            },
            None => {},
        }
        r
    }

    /// The first declared sub-skill with the given name.
    pub fn find_sub_skill(&self, name: &str) -> (r: Option<&SubSkillMeta>)
        ensures
            match r {
                Some(s) => exists|i: int|
                    0 <= i < self.sub_list().len() && self.sub_list()[i] == *s && s.name@ == name@
                        && forall|k: int| 0 <= k < i ==> #[trigger] self.sub_list()[k].name@ != name@,
                None => forall|k: int|
                    0 <= k < self.sub_list().len() ==> #[trigger] self.sub_list()[k].name@ != name@,
            },
    {
        match &self.sub_skills {
            Some(v) => {
                let mut i: usize = 0;
                while i < v.len()
                    invariant
                        self.sub_list() == v@,
                        i <= v@.len(),
                        forall|k: int| 0 <= k < i ==> #[trigger] v@[k].name@ != name@,
                    decreases v@.len() - i,
                {
                    if str_eq(v[i].name.as_str(), name) {
                        return Some(&v[i]);
                    }
                    i = i + 1;
                }
                None
            },
            None => None,
        }
    }
}

/// Errors of the indexing subsystem.
#[derive(Debug, Clone)]
pub enum IndexError {
    NotFound(String),
    ReadError(String),
    ParseError(String),
    ValidationError(String),
}

impl IndexError {
    /// The human-readable form of the error: its kind, then its detail.
    pub open spec fn spec_message(&self) -> Seq<char> {
        match self {
            IndexError::NotFound(m) => "Not found: "@ + m@,
            IndexError::ReadError(m) => "Read error: "@ + m@,
            IndexError::ParseError(m) => "Parse error: "@ + m@,
            IndexError::ValidationError(m) => "Validation error: "@ + m@,
        }
    }

    pub fn message(&self) -> (r: String)
        ensures
            r@ == self.spec_message(),
    {
        match self {
            IndexError::NotFound(m) => join2("Not found: ", m.as_str()),
            IndexError::ReadError(m) => join2("Read error: ", m.as_str()),
            IndexError::ParseError(m) => join2("Parse error: ", m.as_str()),
            IndexError::ValidationError(m) => join2("Validation error: ", m.as_str()),
        }
    }
}

/// The metadata index: descriptors sorted by name, and the load errors.
#[derive(Debug, Clone)]
pub struct SkillIndex {
    pub skills: Vec<SkillMeta>,
    pub errors: Vec<String>,
}

impl SkillIndex {
    /// An empty index.
    pub fn new() -> (r: SkillIndex)
        ensures
            r.skills@.len() == 0,
            r.errors@.len() == 0,
    {
        SkillIndex { skills: Vec::new(), errors: Vec::new() }
    }

    /// An index made of the given parts, as given.
    pub fn with_skills(skills: Vec<SkillMeta>, errors: Vec<String>) -> (r: SkillIndex)
        ensures
            r.skills == skills,
            r.errors == errors,
    {
        SkillIndex { skills, errors }
    }

    /// The number of descriptors.
    pub fn len(&self) -> (r: usize)
        ensures
            r == self.skills@.len(),
    {
        self.skills.len()
    }

    pub fn is_empty(&self) -> (r: bool)
        ensures
            r == (self.skills@.len() == 0),
    {
        self.skills.len() == 0
    }

    /// The first descriptor with the given name.
    pub fn find(&self, name: &str) -> (r: Option<&SkillMeta>)
        ensures
            match r {
                Some(m) => exists|i: int|
                    0 <= i < self.skills@.len() && self.skills@[i] == *m && m.name@ == name@
                        && forall|k: int| 0 <= k < i ==> #[trigger] self.skills@[k].name@ != name@,
                None => forall|k: int|
                    0 <= k < self.skills@.len() ==> #[trigger] self.skills@[k].name@ != name@,
            },
    {
        let mut i: usize = 0;
        while i < self.skills.len()
            invariant
                i <= self.skills@.len(),
                forall|k: int| 0 <= k < i ==> #[trigger] self.skills@[k].name@ != name@,
            decreases self.skills@.len() - i,
        {
            if str_eq(self.skills[i].name.as_str(), name) {
                return Some(&self.skills[i]);
            }
            i = i + 1;
        }
        None
    }
}

/// What an indexed unit of text says, as plain values.
pub struct EntryView {
    pub skill: Seq<char>,
    pub sub_skill: Option<Seq<char>>,
    pub path: Seq<char>,
    pub content: Seq<char>,
}

/// One indexed unit of text.
#[derive(Debug, Clone)]
pub struct ContentIndexEntry {
    pub skill: String,
    /// The sub-skill the text belongs to; `None` for a main document or a reference file.
    pub sub_skill: Option<String>,
    /// Path of the file, relative to the skill's directory.
    pub path: String,
    pub content: String,
}

impl View for ContentIndexEntry {
    type V = EntryView;

    open spec fn view(&self) -> EntryView {
        EntryView {
            skill: self.skill@,
            sub_skill: match &self.sub_skill {
                Some(s) => Some(s@),
                None => None,
            },
            path: self.path@,
            content: self.content@,
        }
    }
}

impl ContentIndexEntry {
    pub fn new(skill: String, sub_skill: Option<String>, path: String, content: String) -> (r:
        ContentIndexEntry)
        ensures
            r.skill == skill,
            r.sub_skill == sub_skill,
            r.path == path,
            r.content == content,
    {
        ContentIndexEntry { skill, sub_skill, path, content }
    }
}

/// The content index: indexed units in insertion order.
#[derive(Debug, Clone)]
pub struct ContentIndex {
    pub entries: Vec<ContentIndexEntry>,
}

impl View for ContentIndex {
    type V = Seq<EntryView>;

    open spec fn view(&self) -> Seq<EntryView> {
        self.entries@.map_values(|e: ContentIndexEntry| e@)
    }
}

impl ContentIndex {
    pub fn new() -> (r: ContentIndex)
        ensures
            r@.len() == 0,
    {
        ContentIndex { entries: Vec::new() }
    }

    /// Appends an entry.
    pub fn insert(&mut self, entry: ContentIndexEntry)
        ensures
            final(self)@ == old(self)@.push(entry@),
    {
        self.entries.push(entry);
        assert(self@ =~= old(self)@.push(entry@));
    }

    pub fn len(&self) -> (r: usize)
        ensures
            r == self@.len(),
    {
        self.entries.len()
    }

    pub fn is_empty(&self) -> (r: bool)
        ensures
            r == (self@.len() == 0),
    {
        self.entries.len() == 0
    }
}

/// What reading one file gave.
#[derive(Debug, Clone)]
pub enum FileRead {
    /// The file does not exist.
    Missing,
    /// The file exists but could not be read; the detail says why.
    Failed(String),
    /// The file's text.
    Text(String),
}

/// A skill's main document, read on demand.
#[derive(Debug, Clone)]
pub struct SkillContent {
    pub name: String,
    pub content: String,
    pub sub_skills: Vec<String>,
    pub has_references: bool,
}

/// A sub-skill's document, read on demand.
#[derive(Debug, Clone)]
pub struct SubSkillContent {
    pub domain: String,
    pub name: String,
    pub content: String,
}

} // verus!
