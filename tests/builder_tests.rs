use skills_index::builder::{
    build_content_index, build_skill_index, CorpusEntry, MetaLoad, RefFile, SkillFiles,
};
use skills_index::model::{IndexError, SkillIndex, SkillMeta, SubSkillMeta};

fn meta(name: &str) -> SkillMeta {
    SkillMeta {
        name: name.to_string(),
        description: format!("about {}", name),
        tags: vec!["t".to_string()],
        sub_skills: None,
        source: None,
    }
}

fn loaded(name: &str) -> CorpusEntry {
    CorpusEntry { name: name.to_string(), is_dir: true, meta: MetaLoad::Loaded(meta(name), vec![]) }
}

fn names(index: &SkillIndex) -> Vec<String> {
    index.skills.iter().map(|m| m.name.clone()).collect()
}

#[test]
fn skills_sorted_by_name_without_duplicates() {
    let scan = vec![loaded("routing"), loaded("forms"), loaded("auth"), loaded("Zeta")];
    let index = build_skill_index(scan);
    assert_eq!(names(&index), vec!["Zeta", "auth", "forms", "routing"]);
    assert!(index.errors.is_empty());
}

#[test]
fn missing_metadata_gives_one_error_and_no_skill() {
    let scan = vec![
        loaded("forms"),
        CorpusEntry { name: "broken".to_string(), is_dir: true, meta: MetaLoad::Missing },
    ];
    let index = build_skill_index(scan);
    assert_eq!(names(&index), vec!["forms"]);
    assert_eq!(index.errors, vec!["broken: Missing _meta.json".to_string()]);
    assert_eq!(index.errors.iter().filter(|e| e.contains("broken")).count(), 1);
}

#[test]
fn hidden_reserved_and_plain_files_are_skipped() {
    let scan = vec![
        CorpusEntry { name: ".git".to_string(), is_dir: true, meta: MetaLoad::Missing },
        CorpusEntry { name: "_drafts".to_string(), is_dir: true, meta: MetaLoad::Missing },
        CorpusEntry { name: "README.md".to_string(), is_dir: false, meta: MetaLoad::Missing },
        loaded("forms"),
    ];
    let index = build_skill_index(scan);
    assert_eq!(names(&index), vec!["forms"]);
    assert!(index.errors.is_empty());
}

#[test]
fn load_failure_is_reported_and_skipped() {
    let scan = vec![CorpusEntry {
        name: "bad".to_string(),
        is_dir: true,
        meta: MetaLoad::Failed(IndexError::ParseError("expected value".to_string())),
    }];
    let index = build_skill_index(scan);
    assert!(index.skills.is_empty());
    assert_eq!(index.errors, vec!["bad: Parse error: expected value".to_string()]);
}

#[test]
fn validation_messages_are_advisory() {
    let scan = vec![CorpusEntry {
        name: "forms".to_string(),
        is_dir: true,
        meta: MetaLoad::Loaded(meta("forms"), vec!["description too short".to_string(), "no tags".to_string()]),
    }];
    let index = build_skill_index(scan);
    assert_eq!(names(&index), vec!["forms"]);
    assert_eq!(
        index.errors,
        vec!["forms: description too short".to_string(), "forms: no tags".to_string()]
    );
}

#[test]
fn content_index_covers_main_subs_and_markdown_references() {
    let mut m = meta("forms");
    m.sub_skills = Some(vec![
        SubSkillMeta { name: "advanced".to_string(), file: "advanced.md".to_string(), triggers: vec![] },
        SubSkillMeta { name: "basic".to_string(), file: "basic.md".to_string(), triggers: vec![] },
    ]);
    let index = SkillIndex::with_skills(vec![m, meta("routing")], vec![]);
    let files = vec![
        SkillFiles {
            main: Some("main text".to_string()),
            subs: vec![None, Some("basic text".to_string())],
            references: vec![
                RefFile { path: "references/a.md".to_string(), extension: Some("md".to_string()), content: Some("ref a".to_string()) },
                RefFile { path: "references/b.txt".to_string(), extension: Some("txt".to_string()), content: Some("ref b".to_string()) },
                RefFile { path: "references/c.markdown".to_string(), extension: Some("markdown".to_string()), content: Some("ref c".to_string()) },
                RefFile { path: "references/d.md".to_string(), extension: Some("md".to_string()), content: None },
            ],
        },
        SkillFiles { main: None, subs: vec![], references: vec![] },
    ];
    let content = build_content_index(&index, &files);
    let got: Vec<(String, Option<String>, String, String)> = content
        .entries
        .iter()
        .map(|e| (e.skill.clone(), e.sub_skill.clone(), e.path.clone(), e.content.clone()))
        .collect();
    assert_eq!(
        got,
        vec![
            ("forms".to_string(), None, "SKILL.md".to_string(), "main text".to_string()),
            ("forms".to_string(), Some("basic".to_string()), "basic.md".to_string(), "basic text".to_string()),
            ("forms".to_string(), None, "references/a.md".to_string(), "ref a".to_string()),
            ("forms".to_string(), None, "references/c.markdown".to_string(), "ref c".to_string()),
        ]
    );
    for e in &content.entries {
        assert!(index.find(&e.skill).is_some());
    }
}
