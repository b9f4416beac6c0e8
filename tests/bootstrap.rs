use mcman::build_context::{BuildContext, Server};
use mcman::eula::{acceptance_write, Downloadable, ServerLauncher};
use mcman::plan::{bootstrap, BootstrapContext, BootstrapError, TemplateNode, WriteOp};
use mcman::template::{looks_binary, render_contents, substitute};
use mcman::vars::{resolve, VarMap};

fn pairs(v: &[(&str, &str)]) -> Vec<(String, String)> {
    v.iter().map(|(k, x)| (k.to_string(), x.to_string())).collect()
}

fn vars_of(v: &[(&str, &str)]) -> VarMap {
    let mut m = VarMap::new();
    for (k, x) in v {
        m.insert(k.to_string(), x.to_string());
    }
    m
}

fn get(m: &VarMap, k: &str) -> Option<String> {
    m.get(&k.to_string()).cloned()
}

fn file(path: &str, contents: &[u8]) -> TemplateNode {
    TemplateNode::File { path: path.to_string(), contents: contents.to_vec() }
}

fn dir(path: &str) -> TemplateNode {
    TemplateNode::Directory { path: path.to_string() }
}

fn server(jar: Downloadable, eula_args: bool) -> BuildContext {
    BuildContext {
        server: Server {
            name: "Example".to_string(),
            mc_version: "1.20.1".to_string(),
            variables: pairs(&[("MOTD", "hello ${SERVER_NAME}"), ("PORT", "25565")]),
            launcher: ServerLauncher { eula_args },
            jar,
        },
        output_dir: "/srv/out".to_string(),
    }
}

fn paper() -> Downloadable {
    Downloadable::PaperMC { project: "paper".to_string(), build: "latest".to_string() }
}

fn fabric() -> Downloadable {
    Downloadable::Fabric { loader: "latest".to_string(), installer: "latest".to_string() }
}

fn quilt() -> Downloadable {
    Downloadable::Quilt { loader: "latest".to_string(), installer: "latest".to_string() }
}

fn op_path(op: &WriteOp) -> &str {
    match op {
        WriteOp::CreateDir { path } => path,
        WriteOp::WriteFile { path, .. } => path,
    }
}

fn op_contents(op: &WriteOp) -> Option<&[u8]> {
    match op {
        WriteOp::CreateDir { .. } => None,
        WriteOp::WriteFile { contents, .. } => Some(contents),
    }
}

#[test]
fn var_map_insert_overwrites() {
    let mut m = VarMap::new();
    m.insert("A".to_string(), "1".to_string());
    m.insert("B".to_string(), "2".to_string());
    m.insert("A".to_string(), "3".to_string());
    assert_eq!(get(&m, "A").as_deref(), Some("3"));
    assert_eq!(get(&m, "B").as_deref(), Some("2"));
    assert_eq!(get(&m, "C"), None);
}

#[test]
fn var_map_lookup_by_bytes() {
    let m = vars_of(&[("NAME", "v")]);
    let t = b"x${NAME}y";
    assert_eq!(m.get_by_bytes(t, 3, 7).map(|s| s.as_str()), Some("v"));
    assert_eq!(m.get_by_bytes(t, 3, 6), None);
}

#[test]
fn identity_fields_win_over_config_and_env() {
    let config = pairs(&[("SERVER_NAME", "from-config"), ("SERVER_VERSION", "0.0"), ("X", "c")]);
    let env = pairs(&[("SERVER_NAME", "from-env"), ("SERVER_VERSION", "9.9")]);
    let m = resolve(&config, &env, &"Example".to_string(), &"1.20.1".to_string());
    assert_eq!(get(&m, "SERVER_NAME").as_deref(), Some("Example"));
    assert_eq!(get(&m, "SERVER_VERSION").as_deref(), Some("1.20.1"));
    assert_eq!(get(&m, "X").as_deref(), Some("c"));
}

#[test]
fn environment_wins_over_config() {
    let config = pairs(&[("PORT", "25565"), ("MOTD", "config motd")]);
    let env = pairs(&[("PORT", "25570"), ("HOME", "/root")]);
    let m = resolve(&config, &env, &"s".to_string(), &"v".to_string());
    assert_eq!(get(&m, "PORT").as_deref(), Some("25570"));
    assert_eq!(get(&m, "MOTD").as_deref(), Some("config motd"));
    assert_eq!(get(&m, "HOME").as_deref(), Some("/root"));
}

#[test]
fn resolve_with_empty_sources_has_identity_only() {
    let m = resolve(&Vec::new(), &Vec::new(), &"".to_string(), &"v".to_string());
    assert_eq!(get(&m, "SERVER_NAME").as_deref(), Some(""));
    assert_eq!(get(&m, "SERVER_VERSION").as_deref(), Some("v"));
    assert_eq!(get(&m, "PATH"), None);
}

#[test]
fn server_name_placeholder_is_replaced() {
    let m = vars_of(&[("SERVER_NAME", "Example")]);
    let out = substitute(b"motd=${SERVER_NAME}!", &m);
    assert_eq!(out, b"motd=Example!".to_vec());
    let text = String::from_utf8(out).unwrap();
    assert!(text.contains("Example"));
    assert!(!text.contains("${SERVER_NAME}"));
}

#[test]
fn missing_variable_is_left_untouched() {
    let m = vars_of(&[("A", "1")]);
    assert_eq!(substitute(b"${A}-${MISSING}", &m), b"1-${MISSING}".to_vec());
}

#[test]
fn empty_value_substitutes_empty() {
    let m = vars_of(&[("EMPTY", "")]);
    assert_eq!(substitute(b"[${EMPTY}]", &m), b"[]".to_vec());
}

#[test]
fn malformed_placeholders_are_copied() {
    let m = vars_of(&[("A", "1"), ("A B", "2")]);
    assert_eq!(substitute(b"${A", &m), b"${A".to_vec());
    assert_eq!(substitute(b"${}", &m), b"${}".to_vec());
    assert_eq!(substitute(b"${A B}", &m), b"${A B}".to_vec());
    assert_eq!(substitute(b"$A {A}", &m), b"$A {A}".to_vec());
    assert_eq!(substitute(b"$", &m), b"$".to_vec());
    assert_eq!(substitute(b"", &m), b"".to_vec());
}

#[test]
fn adjacent_and_repeated_placeholders() {
    let m = vars_of(&[("A", "x"), ("B_2", "yz")]);
    assert_eq!(substitute(b"${A}${B_2}${A}", &m), b"xyzx".to_vec());
    assert_eq!(substitute(b"$${A}", &m), b"$x".to_vec());
}

#[test]
fn values_are_not_rescanned() {
    let m = vars_of(&[("A", "${B}"), ("B", "no")]);
    assert_eq!(substitute(b"${A}", &m), b"${B}".to_vec());
}

#[test]
fn non_ascii_values_are_utf8() {
    let m = vars_of(&[("N", "é✓")]);
    assert_eq!(substitute(b"<${N}>", &m), "<é✓>".as_bytes().to_vec());
}

#[test]
fn binary_files_are_copied_verbatim() {
    let m = vars_of(&[("A", "1")]);
    let data = b"\x00${A}\xff".to_vec();
    assert!(looks_binary(&data));
    assert!(!looks_binary(b"${A}"));
    assert_eq!(render_contents(&data, &m), data);
    assert_eq!(render_contents(b"${A}", &m), b"1".to_vec());
}

#[test]
fn bootstrap_mirrors_template_paths() {
    let ctx = BootstrapContext { vars: vars_of(&[("SERVER_NAME", "Example")]), output_dir: "/o".to_string() };
    let templates = vec![
        dir("plugins"),
        file("server.properties", b"motd=${SERVER_NAME}\n"),
        file("plugins/a.yml", b"name: ${SERVER_NAME}"),
    ];
    let ops = match bootstrap(&ctx, &templates) {
        Ok(ops) => ops,
        Err(_) => panic!("unique paths must render"),
    };
    assert_eq!(ops.len(), 3);
    let paths: Vec<&str> = ops.iter().map(op_path).collect();
    assert_eq!(paths, vec!["plugins", "server.properties", "plugins/a.yml"]);
    assert_eq!(op_contents(&ops[0]), None);
    assert_eq!(op_contents(&ops[1]), Some(&b"motd=Example\n"[..]));
    assert_eq!(op_contents(&ops[2]), Some(&b"name: Example"[..]));
}

#[test]
fn bootstrap_of_empty_tree_writes_nothing() {
    let ctx = BootstrapContext { vars: VarMap::new(), output_dir: "/o".to_string() };
    match bootstrap(&ctx, &Vec::new()) {
        Ok(ops) => assert!(ops.is_empty()),
        Err(_) => panic!("an empty tree renders"),
    }
}

#[test]
fn duplicate_template_path_is_rejected() {
    let ctx = BootstrapContext { vars: VarMap::new(), output_dir: "/o".to_string() };
    let templates = vec![file("a.txt", b"1"), dir("b"), file("a.txt", b"2")];
    match bootstrap(&ctx, &templates) {
        Err(BootstrapError::DuplicatePath { path }) => assert_eq!(path, "a.txt"),
        Ok(_) => panic!("duplicate paths must be rejected"),
    }
}

#[test]
fn rendering_twice_gives_identical_writes() {
    let ctx = server(paper(), false);
    let env = pairs(&[("PORT", "1")]);
    let templates = vec![dir("d"), file("d/f.txt", b"${MOTD} on ${PORT}")];
    let first = ctx.bootstrap_files(&env, &templates).ok().unwrap();
    let second = ctx.bootstrap_files(&env, &templates).ok().unwrap();
    assert_eq!(first.len(), second.len());
    for (a, b) in first.iter().zip(second.iter()) {
        assert_eq!(op_path(a), op_path(b));
        assert_eq!(op_contents(a), op_contents(b));
    }
    assert_eq!(op_contents(&first[1]), Some(&b"hello ${SERVER_NAME} on 1"[..]));
}

#[test]
fn vanilla_with_acceptance_writes_eula_file() {
    let ctx = server(Downloadable::Vanilla {}, true);
    let ops = ctx.bootstrap_files(&Vec::new(), &vec![file("server.properties", b"x")]).ok().unwrap();
    assert_eq!(ops.len(), 2);
    assert_eq!(op_path(&ops[1]), "eula.txt");
    let text = String::from_utf8(op_contents(&ops[1]).unwrap().to_vec()).unwrap();
    assert_eq!(text.lines().collect::<Vec<_>>(), vec!["eula=true"]);
}

#[test]
fn fabric_and_quilt_with_acceptance_write_eula_file() {
    for jar in [fabric(), quilt()] {
        let op = acceptance_write(&jar, &ServerLauncher { eula_args: true }).unwrap();
        assert_eq!(op_path(&op), "eula.txt");
        assert_eq!(op_contents(&op), Some(&b"eula=true\n"[..]));
    }
}

#[test]
fn native_flag_kind_writes_no_eula_file() {
    let ctx = server(paper(), true);
    let ops = ctx.bootstrap_files(&Vec::new(), &vec![file("server.properties", b"x")]).ok().unwrap();
    assert_eq!(ops.len(), 1);
    assert!(ops.iter().all(|o| op_path(o) != "eula.txt"));
    assert!(acceptance_write(&Downloadable::Url { url: "u".to_string() }, &ServerLauncher { eula_args: true }).is_none());
    assert!(paper().supports_acceptance_flag());
    assert!(!Downloadable::Vanilla {}.supports_acceptance_flag());
}

#[test]
fn no_eula_file_without_acceptance() {
    for jar in [Downloadable::Vanilla {}, fabric(), quilt(), paper(), Downloadable::Purpur { build: "1".to_string() }] {
        assert!(acceptance_write(&jar, &ServerLauncher { eula_args: false }).is_none());
    }
    let ctx = server(Downloadable::Vanilla {}, false);
    let ops = ctx.bootstrap_files(&Vec::new(), &vec![dir("config")]).ok().unwrap();
    assert_eq!(ops.len(), 1);
    assert_eq!(op_path(&ops[0]), "config");
}

#[test]
fn bootstrap_files_reports_duplicates() {
    let ctx = server(Downloadable::Vanilla {}, true);
    match ctx.bootstrap_files(&Vec::new(), &vec![dir("x"), dir("x")]) {
        Err(BootstrapError::DuplicatePath { path }) => assert_eq!(path, "x"),
        Ok(_) => panic!("duplicate paths must be rejected"),
    }
}

#[test]
fn identity_fields_reach_templates() {
    let ctx = server(paper(), false);
    let env = pairs(&[("SERVER_NAME", "env-name")]);
    let ops = ctx.bootstrap_files(&env, &vec![file("v.txt", b"${SERVER_NAME} ${SERVER_VERSION}")]).ok().unwrap();
    assert_eq!(op_contents(&ops[0]), Some(&b"Example 1.20.1"[..]));
}
