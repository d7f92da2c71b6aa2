use gprdeps::allscenarios::AllScenarios;
use gprdeps::errors::Error;
use gprdeps::files::File;
use gprdeps::gpr::GprFile;
use gprdeps::gpr_scanner::GprScanner;
use gprdeps::packagename::PackageName;
use gprdeps::qualifiedname::QualifiedName;
use gprdeps::rawexpr::RawExpr;
use gprdeps::rawgpr::RawGPR;
use gprdeps::scenarios::Scenario;
use gprdeps::settings::Settings;
use gprdeps::simplename::SimpleName;
use gprdeps::values::ExprValue;

fn build_expr_str(s: &str) -> RawExpr {
    RawExpr::Str(s.to_string())
}

fn build_expr_list(s: &[&str]) -> RawExpr {
    RawExpr::List(s.iter().map(|v| build_expr_str(v)).collect())
}

fn strings(s: &[&str]) -> Vec<String> {
    s.iter().map(|v| v.to_string()).collect()
}

fn parse(s: &str) -> Result<RawGPR, Error> {
    let file = File::new_from_str(s);
    let settings = Settings::default();
    GprScanner::new(&file, &settings).parse()
}

fn process(raw: &RawGPR, scenarios: &mut AllScenarios) -> Result<GprFile, Error> {
    let mut gpr = GprFile::new(raw.path.clone(), false, false, false, 0);
    gpr.process(raw, None, &[], scenarios)?;
    Ok(gpr)
}

fn assert_variable(gpr: &GprFile, pkg: PackageName, name: &str, scenarios: &AllScenarios, expected: &str) {
    let v = gpr.get(pkg, &SimpleName::Name(name.to_string()));
    let actual = match v {
        None => "NONE".to_string(),
        Some(a) => a.format(scenarios, "", "\n"),
    };
    assert_eq!(actual, expected);
}

#[test]
fn test_eval() -> Result<(), Error> {
    let mut gpr = GprFile::new("/".to_string(), false, false, false, 0);
    let mut scenars = AllScenarios::default();
    let pkg = PackageName::Top;

    // Evaluate a string
    let expr1 = build_expr_str("value");
    assert_eq!(
        ExprValue::new_with_raw(&expr1, &gpr, &[], &mut scenars, Scenario::default(), pkg)?,
        ExprValue::new_with_str("value".to_string()),
    );

    // Concatenate two strings
    let expr2 = build_expr_str("value").ampersand(build_expr_str("suffix"));
    assert_eq!(
        ExprValue::new_with_raw(&expr2, &gpr, &[], &mut scenars, Scenario::default(), pkg)?,
        ExprValue::new_with_str("valuesuffix".to_string()),
    );

    // Evaluate a list of strings
    let expr3 = build_expr_list(&["val1", "val2"]);
    assert_eq!(
        ExprValue::new_with_raw(&expr3, &gpr, &[], &mut scenars, Scenario::default(), pkg)?,
        ExprValue::new_with_list(strings(&["val1", "val2"]))
    );

    // Evaluate a list of expressions
    let expr4 = RawExpr::List(vec![
        build_expr_str("value").ampersand(build_expr_str("suffix")),
        build_expr_str("val2"),
    ]);
    assert_eq!(
        ExprValue::new_with_raw(&expr4, &gpr, &[], &mut scenars, Scenario::default(), pkg)?,
        ExprValue::new_with_list(strings(&["valuesuffix", "val2"])),
    );

    // Concatenate list and string
    let expr4 = build_expr_list(&["val1", "val2"]).ampersand(build_expr_str("value"));
    assert_eq!(
        ExprValue::new_with_raw(&expr4, &gpr, &[], &mut scenars, Scenario::default(), pkg)?,
        ExprValue::new_with_list(strings(&["val1", "val2", "value"])),
    );

    // Concatenate two lists
    let expr5 = build_expr_list(&["val1", "val2"]).ampersand(build_expr_list(&["val3", "val4"]));
    assert_eq!(
        ExprValue::new_with_raw(&expr5, &gpr, &[], &mut scenars, Scenario::default(), pkg)?,
        ExprValue::new_with_list(strings(&["val1", "val2", "val3", "val4"])),
    );

    // Evaluate a qualified name
    gpr.declare(
        PackageName::Top,
        SimpleName::Name("var1".to_string()),
        Scenario::default(),
        &mut scenars,
        ExprValue::new_with_str("val1".to_string()),
    )?;

    let expr = build_expr_str("value").ampersand(RawExpr::Name(QualifiedName {
        project: None,
        package: PackageName::Top,
        name: SimpleName::Name("var1".to_string()),
    }));
    assert_eq!(
        ExprValue::new_with_raw(&expr, &gpr, &[], &mut scenars, Scenario::default(), pkg)?,
        ExprValue::new_with_str("valueval1".to_string()),
    );

    Ok(())
}

/// A list expression is built with values that differ between scenarios.
/// The resulting expression should therefore have different values for
/// each scenario (four combinations here).
#[test]
fn list_in_scenar() -> Result<(), Error> {
    let raw = parse(
        r#"project P is
               type On_Off is ("on", "off");
               E1 : On_Off := external ("e1");
               E2 : On_Off := external ("e2");
               V := ("a", E1, E2, E1);
               end P;"#,
    )?;
    let mut scenarios = AllScenarios::default();
    let gpr = process(&raw, &mut scenarios)?;
    assert_variable(
        &gpr,
        PackageName::Top,
        "v",
        &scenarios,
        "e1=off,e2=off a, off, off, off\n\
             e1=off,e2=on  a, off, on, off\n\
             e1=on,e2=off  a, on, off, on\n\
             e1=on,e2=on   a, on, on, on",
    );
    Ok(())
}

/// A list expression is built via multiple case statements, and builds a
/// value that depends on the scenario.  We must make sure that a "match"
/// arm doesn't override the value of the expression in other scenarios.
#[test]
fn var_from_case() -> Result<(), Error> {
    let raw = parse(
        r#"project P is
               type On_Off is ("on", "off");
               E1 : On_Off := external ("e1");  --  in practice, undefined
               V := ("a");
               case E1 is
                  when "on" | "off" => V := V & "f";
                  when others => null;
               end case;
               case E1 is
                  when "on"  => V := V & "b";
                  when "off" => V := V & ("c");
               end case;

               --  Variable declared after first use of scenarios
               E2 : On_Off := external ("e2");
               case E2 is
                  when "on"  => V := V & ("d");
                  when "off" => V := V & ("e");
               end case;
            end P;
            "#,
    )?;
    let mut scenarios = AllScenarios::default();
    let gpr = process(&raw, &mut scenarios)?;
    assert_variable(
        &gpr,
        PackageName::Top,
        "v",
        &scenarios,
        "e1=off,e2=off a, f, c, e\n\
             e1=off,e2=on  a, f, c, d\n\
             e1=on,e2=off  a, f, b, e\n\
             e1=on,e2=on   a, f, b, d",
    );

    Ok(())
}

#[test]
fn split_full() -> Result<(), Error> {
    let raw = parse(
        r#"project P is
               type On_Off is ("on", "off");
               E1 : On_Off := external ("e1");
               E2 : On_Off := external ("e2");

               V := "a";
               case E1 is
                  when "on" =>
                     case E2 is
                        when "on" =>
                           V := "b";
                      end case;
               end case;
            end P;
            "#,
    )?;
    let mut scenarios = AllScenarios::default();
    let gpr = process(&raw, &mut scenarios)?;
    assert_variable(
        &gpr,
        PackageName::Top,
        "v",
        &scenarios,
        "e1=off      a\n\
             e1=on,e2=on b\n\
             e2=off      a",
    );
    Ok(())
}

/// Check what happens when we have too many scenario variables and too
/// many valid values (overflow of the Mask)
#[test]
fn mask_overflow() -> Result<(), Error> {
    let raw = parse(
        r#"project P is
               type T is ("a", "b", "c", "d");
               E1 : T := external ("e1");
               E2 : T := external ("e2");
               E3 : T := external ("e3");
               E4 : T := external ("e4");
               E5 : T := external ("e5");
               E6 : T := external ("e6");
               E7 : T := external ("e7");
               E8 : T := external ("e8");
               E9 : T := external ("e9");
               E10 : T := external ("e10");
               E11 : T := external ("e11");
               E12 : T := external ("e12");
               E13 : T := external ("e13");
               E14 : T := external ("e14");
               E15 : T := external ("e15");
               E16 : T := external ("e16");
               E17 : T := external ("e17");
               end P;
            "#,
    )?;
    let mut scenarios = AllScenarios::default();
    let gpr = process(&raw, &mut scenarios);
    match gpr {
        Err(Error::WithPath { error, .. }) => {
            assert!(matches!(*error, Error::TooManyScenarioVariables))
        }
        _ => panic!("expected TooManyScenarioVariables"),
    }
    Ok(())
}

#[test]
fn external_reads_environment() -> Result<(), Error> {
    let gpr = GprFile::new("/".to_string(), false, false, false, 0);
    let mut scenars = AllScenarios::default();
    scenars.externals.push(("MODE".to_string(), "debug".to_string()));
    let call = |args: Vec<RawExpr>| {
        RawExpr::FuncCall((
            QualifiedName {
                project: None,
                package: PackageName::Top,
                name: SimpleName::Name("external".to_string()),
            },
            args,
        ))
    };
    let set = call(vec![build_expr_str("MODE"), build_expr_str("other")]);
    assert_eq!(
        ExprValue::new_with_raw(&set, &gpr, &[], &mut scenars, Scenario::default(), PackageName::Top)?,
        ExprValue::new_with_str("debug".to_string()),
    );
    let unset = call(vec![build_expr_str("UNSET"), build_expr_str("other")]);
    assert_eq!(
        ExprValue::new_with_raw(&unset, &gpr, &[], &mut scenars, Scenario::default(), PackageName::Top)?,
        ExprValue::new_with_str("other".to_string()),
    );
    let no_default = call(vec![build_expr_str("UNSET")]);
    assert_eq!(
        ExprValue::new_with_raw(&no_default, &gpr, &[], &mut scenars, Scenario::default(), PackageName::Top)?,
        ExprValue::new_with_str(String::new()),
    );
    Ok(())
}

#[test]
fn eval_errors() {
    let gpr = GprFile::new("/".to_string(), false, false, false, 0);
    let mut scenars = AllScenarios::default();
    let unknown = RawExpr::Name(QualifiedName {
        project: None,
        package: PackageName::Top,
        name: SimpleName::Name("missing".to_string()),
    });
    let r = ExprValue::new_with_raw(&unknown, &gpr, &[], &mut scenars, Scenario::default(), PackageName::Top);
    assert!(matches!(r, Err(Error::NotFound(_))));

    let nested = RawExpr::List(vec![build_expr_list(&["a"])]);
    let r = ExprValue::new_with_raw(&nested, &gpr, &[], &mut scenars, Scenario::default(), PackageName::Top);
    assert!(matches!(r, Err(Error::ListCanOnlyContainStrings)));

    let wrong = build_expr_str("a").ampersand(build_expr_list(&["b"]));
    let r = ExprValue::new_with_raw(&wrong, &gpr, &[], &mut scenars, Scenario::default(), PackageName::Top);
    assert!(matches!(r, Err(Error::WrongAmpersand)));

    let func = RawExpr::FuncCall((
        QualifiedName {
            project: None,
            package: PackageName::Top,
            name: SimpleName::Name("split".to_string()),
        },
        vec![build_expr_str("a")],
    ));
    let r = ExprValue::new_with_raw(&func, &gpr, &[], &mut scenars, Scenario::default(), PackageName::Top);
    match r {
        Err(Error::UnknownFunction(n)) => assert_eq!(n, "split"),
        _ => panic!("expected an unknown function"),
    }
}

#[test]
fn default_attributes() {
    let gpr = GprFile::new("/p.gpr".to_string(), false, false, false, 3);
    let scenars = AllScenarios::default();
    let target = gpr.get(PackageName::Top, &SimpleName::Target).unwrap();
    assert_eq!(target.format(&scenars, "", "\n"), "* x86_64-linux");
    let suffix = gpr
        .get(PackageName::Naming, &SimpleName::BodySuffix("c".to_string()))
        .unwrap();
    assert_eq!(suffix.format(&scenars, "", "\n"), "* .c");
    assert_eq!(gpr.node, 3);
}
