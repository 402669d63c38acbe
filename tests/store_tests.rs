use skills_index::api::{
    apply_update, default_limit, get_skill, list_skills, new_skill_meta, reload_index,
    CreateSkillRequest, UpdateSkillRequest,
};
use skills_index::builder::{build_content_index, CorpusEntry, MetaLoad, SkillFiles};
use skills_index::model::{FileRead, IndexError, SkillIndex, SkillMeta, SubSkillMeta};
use skills_index::store::SkillIndexer;

fn meta(name: &str, subs: Option<Vec<SubSkillMeta>>) -> SkillMeta {
    SkillMeta {
        name: name.to_string(),
        description: format!("{} skill", name),
        tags: vec!["web".to_string()],
        sub_skills: subs,
        source: None,
    }
}

fn loaded_store(metas: Vec<SkillMeta>) -> SkillIndexer {
    let mut indexer = SkillIndexer::new("/corpus".to_string());
    let scan: Vec<CorpusEntry> = metas
        .into_iter()
        .map(|m| CorpusEntry { name: m.name.clone(), is_dir: true, meta: MetaLoad::Loaded(m, vec![]) })
        .collect();
    let skills = indexer.build_skill_index(Some(scan)).unwrap();
    let files: Vec<SkillFiles> = skills
        .skills
        .iter()
        .map(|m| SkillFiles { main: Some(format!("# {}", m.name)), subs: vec![], references: vec![] })
        .collect();
    let content = build_content_index(&skills, &files);
    indexer.reload(Ok((skills, content))).unwrap();
    indexer
}

fn advanced() -> Vec<SubSkillMeta> {
    vec![SubSkillMeta {
        name: "advanced".to_string(),
        file: "advanced.md".to_string(),
        triggers: vec!["deep".to_string()],
    }]
}

#[test]
fn get_missing_skill_is_not_found() {
    let indexer = loaded_store(vec![meta("forms", None)]);
    assert!(indexer.get_skill_meta("missing").is_none());
    match get_skill(&indexer, "missing", FileRead::Text("x".to_string()), false) {
        Err(IndexError::NotFound(m)) => assert_eq!(m, "Skill 'missing' not found"),
        other => panic!("unexpected {:?}", other),
    }
    match indexer.sub_skill_file("missing", "x") {
        Err(IndexError::NotFound(m)) => assert_eq!(m, "Skill 'missing' not found"),
        other => panic!("unexpected {:?}", other),
    }
}

#[test]
fn missing_root_fails_reload_and_keeps_index() {
    let mut indexer = loaded_store(vec![meta("forms", None), meta("routing", None)]);
    let built = indexer.build_skill_index(None);
    match &built {
        Err(IndexError::NotFound(m)) => assert_eq!(m, "Skills directory not found: /corpus"),
        other => panic!("unexpected {:?}", other),
    }
    let result = indexer.reload(built.map(|s| (s, skills_index::model::ContentIndex::new())));
    assert!(matches!(result, Err(IndexError::NotFound(_))));
    assert_eq!(indexer.get_skill_index().len(), 2);
    assert_eq!(indexer.get_content_index().len(), 2);
    let response = reload_index(&result, indexer.get_skill_index());
    assert!(!response.success);
    assert_eq!(response.skill_count, 0);
}

#[test]
fn missing_sub_skill_file_does_not_block_main_document() {
    let indexer = loaded_store(vec![meta("skill", Some(advanced()))]);
    let content = indexer
        .read_skill_content("skill", FileRead::Text("# skill".to_string()), false)
        .unwrap();
    assert_eq!(content.sub_skills, vec!["advanced".to_string()]);
    let details = get_skill(&indexer, "skill", FileRead::Text("# skill".to_string()), false).unwrap();
    assert_eq!(details.content, "# skill");
    assert_eq!(details.sub_skills[0].name, "advanced");
    assert!(!content.has_references);
    assert_eq!(indexer.sub_skill_file("skill", "advanced").unwrap(), "advanced.md");
    match indexer.read_sub_skill_content("skill", "advanced", FileRead::Missing) {
        Err(IndexError::NotFound(m)) => assert_eq!(m, "Sub-skill file not found: advanced.md"),
        other => panic!("unexpected {:?}", other),
    }
}

#[test]
fn sub_skill_lookup_errors_and_success() {
    let indexer = loaded_store(vec![meta("skill", Some(advanced()))]);
    match indexer.read_sub_skill_content("skill", "basic", FileRead::Text("x".to_string())) {
        Err(IndexError::NotFound(m)) => assert_eq!(m, "Sub-skill 'basic' not found in 'skill'"),
        other => panic!("unexpected {:?}", other),
    }
    let ok = indexer
        .read_sub_skill_content("skill", "advanced", FileRead::Text("deep dive".to_string()))
        .unwrap();
    assert_eq!((ok.domain.as_str(), ok.name.as_str(), ok.content.as_str()), ("skill", "advanced", "deep dive"));
    match indexer.read_sub_skill_content("skill", "advanced", FileRead::Failed("denied".to_string())) {
        Err(IndexError::ReadError(m)) => assert_eq!(m, "denied"),
        other => panic!("unexpected {:?}", other),
    }
}

#[test]
fn missing_main_document_message() {
    let indexer = loaded_store(vec![meta("forms", None)]);
    match indexer.read_skill_content("forms", FileRead::Missing, true) {
        Err(e) => assert_eq!(e.message(), "Not found: SKILL.md not found for 'forms'"),
        Ok(_) => panic!("expected an error"),
    }
}

#[test]
fn listing_and_details() {
    let index = SkillIndex::with_skills(vec![meta("forms", Some(advanced())), meta("routing", None)], vec![]);
    let items = list_skills(&index);
    assert_eq!(items.len(), 2);
    assert_eq!(items[0].name, "forms");
    assert_eq!(items[0].sub_skills, vec!["advanced".to_string()]);
    assert_eq!(items[0].file_count, 2);
    assert_eq!(items[1].file_count, 1);
    assert_eq!(items[1].tags, vec!["web".to_string()]);

    let indexer = loaded_store(vec![meta("forms", Some(advanced()))]);
    let details = get_skill(&indexer, "forms", FileRead::Text("body".to_string()), true).unwrap();
    assert_eq!(details.name, "forms");
    assert_eq!(details.content, "body");
    assert!(details.has_references);
    assert_eq!(details.sub_skills[0].file, "advanced.md");
    assert_eq!(details.sub_skills[0].triggers, vec!["deep".to_string()]);
}

#[test]
fn requests_shape_descriptors() {
    assert_eq!(default_limit(), 10);
    let req = CreateSkillRequest {
        name: "new".to_string(),
        description: "fresh".to_string(),
        content: "# new".to_string(),
        tags: vec!["a".to_string()],
    };
    let m = new_skill_meta(&req);
    assert_eq!((m.name.as_str(), m.description.as_str()), ("new", "fresh"));
    assert!(m.sub_skills.is_none() && m.source.is_none());
    let updated = apply_update(
        m,
        UpdateSkillRequest { description: None, content: Some("x".to_string()), tags: Some(vec![]) },
    );
    assert_eq!(updated.description, "fresh");
    assert!(updated.tags.is_empty());
}
