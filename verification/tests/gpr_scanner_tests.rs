use gprdeps::errors::Error;
use gprdeps::files::File;
use gprdeps::gpr_scanner::GprScanner;
use gprdeps::packagename::PackageName;
use gprdeps::qualifiedname::QualifiedName;
use gprdeps::rawexpr::{RawExpr, Statement, StatementList};
use gprdeps::rawgpr::RawGPR;
use gprdeps::settings::Settings;
use gprdeps::simplename::{SimpleName, StringOrOthers};

fn do_check<F>(s: &str, check: F)
where
    F: FnOnce(Result<RawGPR, Error>),
{
    let file = File::new_from_str(s);
    let settings = Settings::default();
    let scan = GprScanner::new(&file, &settings);
    check(scan.parse());
}

fn expect_error(s: &str, msg: &str) {
    do_check(s, |g| match g {
        Err(e) => assert_eq!(e.to_message(), msg),
        Ok(_) => panic!("while parsing {}, expected an error", s),
    })
}

fn expect_statements(s: &str, expected: StatementList) {
    do_check(s, |g| match &g {
        Err(e) => panic!("while parsing {}, got error {}", s, e.to_message()),
        Ok(g) => assert_eq!(g.body, expected),
    })
}

fn str_expr(s: &str) -> RawExpr {
    RawExpr::Str(s.to_string())
}

fn build_expr_list(s: &[&str]) -> RawExpr {
    RawExpr::List(s.iter().map(|v| str_expr(v)).collect())
}

#[test]
fn gpr_scanner_parse_errors() {
    expect_error("project A is", ":memory::1 Unexpected end of file");
}

#[test]
fn scanner_parse_errors() {
    // The message itself, without the location where it occurred.
    let file = File::new_from_str("project A is");
    let settings = Settings::default();
    match GprScanner::new(&file, &settings).parse() {
        Err(Error::WithLocation { error, .. }) => {
            assert_eq!(error.to_message(), "Unexpected end of file")
        }
        Err(e) => panic!("unexpected error {}", e.to_message()),
        Ok(_) => panic!("expected an error"),
    }
}

#[test]
fn gpr_scanner_parse_attribute_decl() {
    expect_statements(
        "project A is
                for Source_Files use (\"a.adb\");
                for Languages use (\"ADA\", \"C\");
                package Linker is
                   for Switches (\"ADA\") use ();
                   for Switches (others) use ();
                end Linker;
             end A;",
        vec![
            (
                2,
                Statement::AttributeDecl {
                    name: SimpleName::SourceFiles,
                    value: RawExpr::List(vec![str_expr("a.adb")]),
                },
            ),
            (
                3,
                Statement::AttributeDecl {
                    name: SimpleName::Languages,
                    value: RawExpr::List(vec![str_expr("ada"), str_expr("c")]),
                },
            ),
            (
                4,
                Statement::Package {
                    name: PackageName::Linker,
                    renames: None,
                    extends: None,
                    body: vec![
                        (
                            5,
                            Statement::AttributeDecl {
                                name: SimpleName::Switches(StringOrOthers::Str(
                                    "ada".to_string(),
                                )),
                                value: RawExpr::List(vec![]),
                            },
                        ),
                        (
                            6,
                            Statement::AttributeDecl {
                                name: SimpleName::Switches(StringOrOthers::Others),
                                value: RawExpr::List(vec![]),
                            },
                        ),
                    ],
                },
            ),
        ],
    );

    expect_statements(
        "project A is
                for Source_Files use Project'Source_Files;
             end A;",
        vec![(
            2,
            Statement::AttributeDecl {
                name: SimpleName::SourceFiles,
                value: RawExpr::Name(QualifiedName {
                    project: None,
                    package: PackageName::Top,
                    name: SimpleName::SourceFiles,
                }),
            },
        )],
    );
}

#[test]
fn gpr_scanner_parse_external() {
    expect_statements(
        "project A is
                type Mode_Type is (\"Debug\", \"Optimize\", \"lto\");
                Mode : Mode_Type := external (\"MODE\");
            end A;",
        vec![
            (
                2,
                Statement::TypeDecl {
                    typename: "mode_type".to_string(),
                    valid: build_expr_list(&["Debug", "Optimize", "lto"]),
                },
            ),
            (
                3,
                Statement::VariableDecl {
                    name: "mode".to_string(),
                    typename: Some(QualifiedName {
                        project: None,
                        package: PackageName::Top,
                        name: SimpleName::Name("mode_type".to_string()),
                    }),
                    expr: RawExpr::FuncCall((
                        QualifiedName {
                            project: None,
                            package: PackageName::Top,
                            name: SimpleName::Name("external".to_string()),
                        },
                        vec![str_expr("MODE")],
                    )),
                },
            ),
        ],
    );
}

#[test]
fn scanner_parse_attribute_decl() {
    expect_statements(
        "project A is
                for Source_Files use (\"a.adb\");
                package Linker is
                   for Switches (others) use ();
                end Linker;
             end A;",
        vec![
            (
                2,
                Statement::AttributeDecl {
                    name: SimpleName::SourceFiles,
                    value: RawExpr::List(vec![str_expr("a.adb")]),
                },
            ),
            (
                3,
                Statement::Package {
                    name: PackageName::Linker,
                    renames: None,
                    extends: None,
                    body: vec![(
                        4,
                        Statement::AttributeDecl {
                            name: SimpleName::Switches(StringOrOthers::Others),
                            value: RawExpr::List(vec![]),
                        },
                    )],
                },
            ),
        ],
    );
}

#[test]
fn scanner_parse_external() {
    expect_statements(
        "project A is
                type Mode_Type is (\"Debug\", \"Optimize\", \"lto\");
                Mode : Mode_Type := external (\"MODE\");
            end A;",
        vec![
            (
                2,
                Statement::TypeDecl {
                    typename: "mode_type".to_string(),
                    valid: build_expr_list(&["Debug", "Optimize", "lto"]),
                },
            ),
            (
                3,
                Statement::VariableDecl {
                    name: "mode".to_string(),
                    typename: Some(QualifiedName {
                        project: None,
                        package: PackageName::Top,
                        name: SimpleName::Name("mode_type".to_string()),
                    }),
                    expr: RawExpr::FuncCall((
                        QualifiedName {
                            project: None,
                            package: PackageName::Top,
                            name: SimpleName::Name("external".to_string()),
                        },
                        vec![str_expr("MODE")],
                    )),
                },
            ),
        ],
    );
}
