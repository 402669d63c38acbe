use skills_index::builder::{build_content_index, CorpusEntry, MetaLoad, SkillFiles};
use skills_index::model::{FileRead, SkillMeta};
use skills_index::store::SkillIndexer;

fn meta(name: &str, description: &str) -> SkillMeta {
    SkillMeta {
        name: name.to_string(),
        description: description.to_string(),
        tags: vec![],
        sub_skills: None,
        source: None,
    }
}

fn skill_dir(name: &str, description: &str) -> CorpusEntry {
    CorpusEntry {
        name: name.to_string(),
        is_dir: true,
        meta: MetaLoad::Loaded(meta(name, description), vec![]),
    }
}

fn reload(indexer: &mut SkillIndexer, scan: Vec<CorpusEntry>, docs: Vec<Option<String>>) {
    let skills = indexer.build_skill_index(Some(scan)).unwrap();
    let files: Vec<SkillFiles> = docs
        .into_iter()
        .map(|main| SkillFiles { main, subs: vec![], references: vec![] })
        .collect();
    let content = build_content_index(&skills, &files);
    indexer.reload(Ok((skills, content))).unwrap();
}

#[test]
fn test_indexer_basic() {
    let mut indexer = SkillIndexer::new("skills".to_string());
    reload(
        &mut indexer,
        vec![skill_dir("test-skill", "A test skill")],
        vec![Some("# test-skill\n\nA test skill".to_string())],
    );

    let index = indexer.get_skill_index();
    assert_eq!(index.len(), 1);
    assert!(index.find("test-skill").is_some());
}

#[test]
fn test_read_skill_content() {
    let mut indexer = SkillIndexer::new("skills".to_string());
    reload(
        &mut indexer,
        vec![skill_dir("forms", "Form handling patterns")],
        vec![Some("# forms\n\nForm handling patterns".to_string())],
    );

    let content = indexer
        .read_skill_content("forms", FileRead::Text("# forms\n\nForm handling patterns".to_string()), false)
        .unwrap();
    assert_eq!(content.name, "forms");
    assert!(content.content.contains("Form handling patterns"));
}

#[test]
fn test_missing_skill() {
    let mut indexer = SkillIndexer::new("skills".to_string());
    reload(&mut indexer, vec![], vec![]);

    let result = indexer.read_skill_content("nonexistent", FileRead::Missing, false);
    assert!(result.is_err());
}
