//! The index store: one metadata index and the content index built from it,
//! held and replaced together.
use vstd::prelude::*;
use crate::model::{SkillIndex, SkillMeta, ContentIndex, IndexError, FileRead, SkillContent, SubSkillContent};
use crate::builder::{CorpusEntry, build_skill_index, indexes_scan, built_from, content_units};
use vstd::string::*;
use crate::text::{join2, join3};

verus! {

/// Whether `i` is the first position of a descriptor with the given name.
pub open spec fn first_named(s: Seq<SkillMeta>, name: Seq<char>, i: int) -> bool {
    &&& 0 <= i < s.len()
    &&& s[i].name@ == name
    &&& forall|k: int| 0 <= k < i ==> #[trigger] s[k].name@ != name
}

/// Whether the first descriptor named `domain` declares a sub-skill named `sub`.
pub open spec fn declares_sub(s: Seq<SkillMeta>, domain: Seq<char>, sub: Seq<char>) -> bool {
    exists|i: int, j: int|
        first_named(s, domain, i) && 0 <= j < s[i].sub_list().len() && #[trigger] s[i].sub_list()[j].name@ == sub
}

/// Holds the current snapshot: a metadata index and the content index that
/// was built from it. Both are replaced in one step, so a reader never sees
/// one without the other.
pub struct SkillIndexer {
    skills_dir: String,
    skill_index: SkillIndex,
    content_index: ContentIndex,
}

impl SkillIndexer {
    /// The corpus root this store reads.
    pub closed spec fn spec_skills_dir(&self) -> Seq<char> {
        self.skills_dir@
    }

    /// The current metadata index.
    pub closed spec fn spec_skill_index(&self) -> SkillIndex {
        self.skill_index
    }

    /// The current content index.
    pub closed spec fn spec_content_index(&self) -> ContentIndex {
        self.content_index
    }

    /// The content index is the one built from the metadata index.
    pub closed spec fn wf(&self) -> bool {
        built_from(self.skill_index, self.content_index)
    }

    /// A store for the given corpus root, with empty indexes.
    pub fn new(skills_dir: String) -> (r: SkillIndexer)
        ensures
            r.wf(),
            r.spec_skills_dir() == skills_dir@,
            r.spec_skill_index().skills@.len() == 0,
            r.spec_skill_index().errors@.len() == 0,
            r.spec_content_index()@.len() == 0,
    {
        let r = SkillIndexer { skills_dir, skill_index: SkillIndex::new(), content_index: ContentIndex::new() };
        assert(r.content_index@ =~= content_units(r.skill_index.skills@, Seq::empty(), 0));
        r
    }

    pub fn skills_dir(&self) -> (r: &str)
        ensures
            r@ == self.spec_skills_dir(),
    {
        self.skills_dir.as_str()
    }

    /// Builds a metadata index from a scan of the corpus root; `None` means
    /// the root does not exist, which is the one fatal error.
    pub fn build_skill_index(&self, scan: Option<Vec<CorpusEntry>>) -> (r: Result<SkillIndex, IndexError>)
        ensures
            match scan {
                None => r is Err && match r {
                    Err(IndexError::NotFound(m)) => m@ == "Skills directory not found: "@ + self.spec_skills_dir(),
                    _ => false,
                },
                Some(entries) => match r {
                    Ok(idx) => indexes_scan(entries@, idx),
                    Err(_) => false,
                },
            },
    {
        match scan {
            None => Err(IndexError::NotFound(join2("Skills directory not found: ", self.skills_dir.as_str()))),
            Some(entries) => Ok(build_skill_index(entries)),
        }
    }

    /// Publishes a freshly built pair of indexes. When building failed, the
    /// current pair stays as it was and the error is handed back.
    pub fn reload(&mut self, built: Result<(SkillIndex, ContentIndex), IndexError>) -> (r: Result<(), IndexError>)
        requires
            match built {
                Ok((s, c)) => built_from(s, c),
                Err(_) => true,
            },
        ensures
            final(self).spec_skills_dir() == old(self).spec_skills_dir(),
            old(self).wf() ==> final(self).wf(),
            match built {
                Ok((s, c)) => r is Ok && final(self).spec_skill_index() == s
                    && final(self).spec_content_index() == c,
                Err(e) => r == Err::<(), IndexError>(e) && *final(self) == *old(self),
            },
    {
        match built {
            Ok((s, c)) => {
                self.skill_index = s;
                self.content_index = c;
                Ok(())
            },
            Err(e) => Err(e),
        }
    }

    pub fn get_skill_index(&self) -> (r: &SkillIndex)
        ensures
            *r == self.spec_skill_index(),
    {
        &self.skill_index
    }

    pub fn get_content_index(&self) -> (r: &ContentIndex)
        ensures
            *r == self.spec_content_index(),
    {
        &self.content_index
    }

    /// The first descriptor with the given name in the current index.
    pub fn get_skill_meta(&self, name: &str) -> (r: Option<&SkillMeta>)
        ensures
            match r {
                Some(m) => exists|i: int|
                    0 <= i < self.spec_skill_index().skills@.len() && self.spec_skill_index().skills@[i]
                        == *m && m.name@ == name@ && forall|k: int|
                        0 <= k < i ==> #[trigger] self.spec_skill_index().skills@[k].name@ != name@,
                None => forall|k: int|
                    0 <= k < self.spec_skill_index().skills@.len()
                        ==> #[trigger] self.spec_skill_index().skills@[k].name@ != name@,
            },
    {
        self.skill_index.find(name)
    }
}

/// A well-formed store holds a content index built from its metadata
/// index; with `lemma_built_content_consistent`, every content entry then
/// belongs to a skill of the current metadata index.
pub proof fn lemma_snapshot_paired(st: SkillIndexer)
    requires
        st.wf(),
    ensures
        built_from(st.spec_skill_index(), st.spec_content_index()),
{
}

impl SkillIndexer {
    /// The main document of a skill, from the reading of its file; the
    /// sub-skill names come from the current metadata index.
    pub fn read_skill_content(&self, name: &str, main: FileRead, has_references: bool) -> (r: Result<
        SkillContent,
        IndexError,
    >)
        ensures
            match main {
                FileRead::Missing => match r {
                    Err(IndexError::NotFound(m)) => m@ == "SKILL.md not found for '"@ + name@ + "'"@,
                    _ => false,
                },
                FileRead::Failed(d) => match r {
                    Err(IndexError::ReadError(m)) => m == d,
                    _ => false,
                },
                FileRead::Text(t) => match r {
                    Ok(c) => {
                        &&& c.name@ == name@
                        &&& c.content == t
                        &&& c.has_references == has_references
                        &&& (forall|k: int|
                            0 <= k < self.spec_skill_index().skills@.len()
                                ==> #[trigger] self.spec_skill_index().skills@[k].name@ != name@)
                            ==> c.sub_skills@.len() == 0
                    },
                    Err(_) => false,
                },
            },
            match r {
                Ok(c) => forall|i: int|
                    0 <= i < self.spec_skill_index().skills@.len()
                        && self.spec_skill_index().skills@[i].name@ == name@
                        && (forall|k: int| 0 <= k < i ==> #[trigger] self.spec_skill_index().skills@[k].name@ != name@)
                        ==> {
                        let m = self.spec_skill_index().skills@[i];
                        &&& c.sub_skills@.len() == m.sub_list().len()
                        &&& forall|j: int| 0 <= j < c.sub_skills@.len() ==> #[trigger] c.sub_skills@[j] == m.sub_list()[j].name
                    },
                Err(_) => true,
            },
    {
        match main {
            FileRead::Missing => Err(IndexError::NotFound(join3("SKILL.md not found for '", name, "'"))),
            FileRead::Failed(d) => Err(IndexError::ReadError(d)),
            FileRead::Text(t) => {
                let sub_skills = match self.skill_index.find(name) {
                    Some(m) => m.sub_skill_names(),
                    None => Vec::new(),
                };
                Ok(SkillContent { name: String::from_str(name), content: t, sub_skills, has_references })
            },
        }
    }

    /// The file of a sub-skill, relative to its skill's directory, as the
    /// current metadata index declares it.
    pub fn sub_skill_file(&self, domain: &str, sub_skill: &str) -> (r: Result<String, IndexError>)
        ensures
            match r {
                Ok(f) => exists|i: int, j: int|
                    first_named(self.spec_skill_index().skills@, domain@, i)
                        && 0 <= j < self.spec_skill_index().skills@[i].sub_list().len()
                        && self.spec_skill_index().skills@[i].sub_list()[j].name@ == sub_skill@
                        && f == self.spec_skill_index().skills@[i].sub_list()[j].file
                        && forall|k: int| 0 <= k < j
                            ==> #[trigger] self.spec_skill_index().skills@[i].sub_list()[k].name@ != sub_skill@,
                Err(IndexError::NotFound(m)) => !declares_sub(self.spec_skill_index().skills@, domain@, sub_skill@) && (
                    (m@ == "Skill '"@ + domain@ + "' not found"@ && forall|k: int|
                        0 <= k < self.spec_skill_index().skills@.len()
                            ==> #[trigger] self.spec_skill_index().skills@[k].name@ != domain@)
                    || (m@ == "Sub-skill '"@ + sub_skill@ + "' not found in '"@ + domain@ + "'"@
                        && exists|i: int| first_named(self.spec_skill_index().skills@, domain@, i))),
                Err(_) => false,
            },
    {
        match self.skill_index.find(domain) {
            None => Err(IndexError::NotFound(join3("Skill '", domain, "' not found"))),
            Some(m) => match m.find_sub_skill(sub_skill) {
                None => {
                    let head = join3("Sub-skill '", sub_skill, "' not found in '");
                    Err(IndexError::NotFound(join3(head.as_str(), domain, "'")))
                },
                Some(s) => {
                    assert(first_named(self.skill_index.skills@, domain@, choose|i: int| 0 <= i < self.skill_index.skills@.len() && self.skill_index.skills@[i] == *m && m.name@ == domain@ && forall|k: int| 0 <= k < i ==> #[trigger] self.skill_index.skills@[k].name@ != domain@));
                    Ok(s.file.clone())
                },
            },
        }
    }

    /// A sub-skill's document, from the reading of the file that
    /// `sub_skill_file` named. Lookup failures come first.
    pub fn read_sub_skill_content(&self, domain: &str, sub_skill: &str, read: FileRead) -> (r: Result<
        SubSkillContent,
        IndexError,
    >)
        ensures
            !declares_sub(self.spec_skill_index().skills@, domain@, sub_skill@) ==> match r {
                Err(IndexError::NotFound(_)) => true,
                _ => false,
            },
            declares_sub(self.spec_skill_index().skills@, domain@, sub_skill@) ==> match read {
                FileRead::Missing => match r {
                    Err(IndexError::NotFound(_)) => true,
                    _ => false,
                },
                FileRead::Failed(d) => r == Err::<SubSkillContent, IndexError>(IndexError::ReadError(d)),
                FileRead::Text(t) => match r {
                    Ok(c) => c.domain@ == domain@ && c.name@ == sub_skill@ && c.content == t,
                    Err(_) => false,
                },
            },
    {
        let file = match self.sub_skill_file(domain, sub_skill) {
            Ok(f) => f,
            Err(e) => {
                return Err(e);
            },
        };
        match read {
            FileRead::Missing => Err(IndexError::NotFound(join2("Sub-skill file not found: ", file.as_str()))),
            FileRead::Failed(d) => Err(IndexError::ReadError(d)),
            FileRead::Text(t) => Ok(SubSkillContent { domain: String::from_str(domain), name: String::from_str(sub_skill), content: t }),
        }
    }
}

} // verus!
