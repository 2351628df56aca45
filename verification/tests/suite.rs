use modelator::artifact::{TlaConfigFile, TlaFile};
use modelator::suite::{find_dependencies, find_file, gather_dependencies, is_standard_module, TlaFileSuite};
use modelator::Error;

fn s(text: &str) -> String {
    text.to_string()
}

fn module(name: &str, content: &str) -> TlaFile {
    TlaFile::new(format!("/m/{}.tla", name), s("/m"), format!("{}.tla", name), s(content))
}

fn names(files: &[TlaFile]) -> Vec<String> {
    files.iter().map(|f| f.tla_module_name()).collect()
}

#[test]
fn dependencies_are_the_modules_extended() {
    let content = "---- MODULE A ----\nEXTENDS B, Naturals,  C ,Sequences\nVARIABLE x\n  EXTENDS D\nEXTENDS E\n====\n";
    assert_eq!(find_dependencies(content), vec![s("B"), s("C"), s("E")]);
    assert_eq!(find_dependencies("VARIABLE x\n"), Vec::<String>::new());
    assert_eq!(find_dependencies("EXTENDS"), vec![s("")]);
    assert_eq!(find_dependencies("EXTENDSEXTENDS A,,TLC"), vec![s("A"), s("")]);
}

#[test]
fn standard_modules() {
    for name in [
        "Bags", "FiniteSets", "Integers", "Json", "Naturals", "Randomization", "Reals",
        "RealTime", "Sequences", "TLC", "TLCExt", "Toolbox",
    ] {
        assert!(is_standard_module(name));
    }
    assert!(!is_standard_module("tlc"));
    assert!(!is_standard_module("Numbers"));
    assert!(!is_standard_module(""));
}

#[test]
fn dependencies_are_gathered_through_other_modules() {
    let library = vec![
        module("Unused", "EXTENDS Missing"),
        module("B", "EXTENDS C, Naturals"),
        module("C", "EXTENDS A, B"),
        module("A", "EXTENDS Integers"),
        module("B", "a second file of the same name"),
    ];
    assert_eq!(find_file(&library, "B"), Some(1));
    assert_eq!(find_file(&library, "Missing"), None);
    let files = gather_dependencies("EXTENDS B, B", &library).unwrap();
    assert_eq!(names(&files), vec![s("A"), s("B"), s("C")]);
    assert!(files
        .iter()
        .all(|f| f.file_contents_backing() != "a second file of the same name"));
    assert_eq!(gather_dependencies("VARIABLE x", &library), Ok(vec![]));
    // the files come in the order of their names, whatever the order in
    // which the modules are met
    let files = gather_dependencies("EXTENDS C\nEXTENDS A", &library).unwrap();
    assert_eq!(names(&files), vec![s("A"), s("B"), s("C")]);
}

#[test]
fn a_missing_module_is_reported() {
    let library = vec![module("B", "EXTENDS C")];
    assert_eq!(
        gather_dependencies("EXTENDS B", &library),
        Err(Error::FileNotFound(s("C.tla")))
    );
    assert_eq!(
        gather_dependencies("EXTENDS X", &vec![]),
        Err(Error::FileNotFound(s("X.tla")))
    );
}

#[test]
fn file_suites() {
    let library = vec![module("Numbers", "EXTENDS Integers"), module("Other", "")];
    let main = module("NumbersTest", "EXTENDS Numbers, TLC");
    let config = TlaConfigFile::new(s("/m/Numbers.cfg"), s("INIT Init"));
    let suite = TlaFileSuite::from_tla_and_config_paths(main.clone(), config, &library).unwrap();
    assert_eq!(suite.tla_file, main);
    assert_eq!(suite.tla_config_file.path(), "NumbersTest.cfg");
    assert_eq!(suite.tla_config_file.content(), "INIT Init");
    assert_eq!(names(&suite.dependency_tla_files), vec![s("Numbers")]);

    let saved: Vec<(String, String)> = suite
        .into_iter()
        .into_iter()
        .map(|f| (f.name, f.content))
        .collect();
    assert_eq!(
        saved,
        vec![
            (s("Numbers.tla"), s("EXTENDS Integers")),
            (s("NumbersTest.tla"), s("EXTENDS Numbers, TLC")),
            (s("NumbersTest.cfg"), s("INIT Init")),
        ]
    );

    let suite = TlaFileSuite::from_tla_path(main.clone(), &library).unwrap();
    assert_eq!(suite.tla_config_file.content(), "");
    assert_eq!(suite.into_iter().len(), 2);
    assert_eq!(names(&suite.dependency_tla_files), vec![s("Numbers")]);

    let broken = module("T", "EXTENDS Nowhere");
    assert_eq!(
        TlaFileSuite::from_tla_path(broken, &library).err(),
        Some(Error::FileNotFound(s("Nowhere.tla")))
    );
}
