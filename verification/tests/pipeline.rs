use minexp::cells::{FormatterError, RawColor};
use minexp::color::Color;
use minexp::entry::{Entry, EntryType};
use minexp::fmt::{build_format, chr_of, format_dir, format_file, format_link, raw_color_from};
use minexp::list::List;
use minexp::registry::FormatterRegistry;
use minexp::sort::SortBy;

fn lua_fn(lua: &mlua::Lua, src: &str) -> mlua::Function {
    lua.load(src).eval().unwrap()
}

fn plain_registry(lua: &mlua::Lua) -> FormatterRegistry {
    FormatterRegistry::new(
        lua_fn(lua, "function(name, path, tick) return 'F ' .. name end"),
        lua_fn(lua, "function(name, path, tick) return 'D ' .. name .. '/' end"),
        lua_fn(lua, "function(name, path, tick) return 'L ' .. name end"),
    )
}

fn leaf(name: &str, ty: EntryType) -> Entry {
    Entry {
        name: name.to_string(),
        path: format!("/t/{}", name),
        ty,
        size: 0,
        date: 0,
        childs: Vec::new(),
    }
}

fn label(f: &minexp::cells::Format) -> String {
    f.v.iter().map(|c| c.0).collect()
}

#[test]
fn callback_string_return_becomes_default_cells() {
    let lua = mlua::Lua::new();
    let reg = plain_registry(&lua);
    let f = build_format(&leaf("note.md", EntryType::File), &reg).unwrap();
    assert_eq!(label(&f), "F note.md");
    assert!(f.v.iter().all(|c| c.1 == Color::WHITE));
    assert_eq!(f.childs.len(), 0);
}

#[test]
fn callback_round_trip_plain_string() {
    let lua = mlua::Lua::new();
    let reg = FormatterRegistry::new(
        lua_fn(&lua, "function(name, path, tick) return 'abc' end"),
        lua_fn(&lua, "function(name, path, tick) return name end"),
        lua_fn(&lua, "function(name, path, tick) return name end"),
    );
    let f = build_format(&leaf("x", EntryType::File), &reg).unwrap();
    assert_eq!(
        f.v,
        vec![('a', Color::WHITE), ('b', Color::WHITE), ('c', Color::WHITE)]
    );
    let line: String = minexp::render::render_line(&f.v).iter().collect();
    assert_eq!(line, "abc");
}

#[test]
fn callback_cell_records_resolve_names_and_triples() {
    let lua = mlua::Lua::new();
    let reg = FormatterRegistry::new(
        lua_fn(
            &lua,
            "function(name, path, tick) return {{chr='a', col='red'}, {chr='bXX', col={9, 8, 7}}} end",
        ),
        lua_fn(&lua, "function(name, path, tick) return name end"),
        lua_fn(&lua, "function(name, path, tick) return name end"),
    );
    let f = build_format(&leaf("x", EntryType::File), &reg).unwrap();
    assert_eq!(f.v, vec![('a', Color::RED), ('b', Color::RGB(9, 8, 7))]);
}

#[test]
fn callback_sees_tick_zero() {
    let lua = mlua::Lua::new();
    let reg = FormatterRegistry::new(
        lua_fn(&lua, "function(name, path, tick) return 'tick=' .. tostring(tick) end"),
        lua_fn(&lua, "function(name, path, tick) return name end"),
        lua_fn(&lua, "function(name, path, tick) return name end"),
    );
    let f = build_format(&leaf("x", EntryType::File), &reg).unwrap();
    assert_eq!(label(&f), "tick=0");
}

#[test]
fn dispatch_by_kind_and_extension() {
    let lua = mlua::Lua::new();
    let mut reg = plain_registry(&lua);
    reg.install_file_formats(
        None,
        vec![(
            "txt".to_string(),
            lua_fn(&lua, "function(name, path, tick) return 'T ' .. name end"),
        )],
    );
    // extension keys are matched against the lowercased file extension
    let f = build_format(&leaf("NOTE.TXT", EntryType::File), &reg).unwrap();
    assert_eq!(label(&f), "T NOTE.TXT");
    let f = build_format(&leaf("note.md", EntryType::File), &reg).unwrap();
    assert_eq!(label(&f), "F note.md");
    let f = build_format(&leaf("plain", EntryType::File), &reg).unwrap();
    assert_eq!(label(&f), "F plain");
    let f = build_format(&leaf("somedir", EntryType::Dir), &reg).unwrap();
    assert_eq!(label(&f), "D somedir/");
    let f = build_format(&leaf("alink", EntryType::SymLink), &reg).unwrap();
    assert_eq!(label(&f), "L alink");
}

#[test]
fn resolve_hands_out_the_generic_slots() {
    let lua = mlua::Lua::new();
    let reg = plain_registry(&lua);
    let name = "x.bin".to_string();
    // no override installed: every kind falls back to its generic slot
    let s: String = format_file(&reg, &name).call(("n", "/p", 0u64)).unwrap();
    assert_eq!(s, "F n");
    let s: String = format_dir(&reg, &name).call(("n", "/p", 0u64)).unwrap();
    assert_eq!(s, "D n/");
    let s: String = format_link(&reg, &name).call(("n", "/p", 0u64)).unwrap();
    assert_eq!(s, "L n");
}

#[test]
fn later_registration_overwrites_earlier() {
    let lua = mlua::Lua::new();
    let mut reg = plain_registry(&lua);
    reg.install_file_formats(
        None,
        vec![
            ("md".to_string(), lua_fn(&lua, "function(n, p, t) return 'one' end")),
            ("md".to_string(), lua_fn(&lua, "function(n, p, t) return 'two' end")),
        ],
    );
    let f = build_format(&leaf("a.md", EntryType::File), &reg).unwrap();
    assert_eq!(label(&f), "two");
}

#[test]
fn registration_with_default_replaces_generic_slot() {
    let lua = mlua::Lua::new();
    let mut reg = plain_registry(&lua);
    reg.install_dir_formats(
        Some(lua_fn(&lua, "function(n, p, t) return 'DIR!' end")),
        Vec::new(),
    );
    let f = build_format(&leaf("d", EntryType::Dir), &reg).unwrap();
    assert_eq!(label(&f), "DIR!");
    // the file side is untouched
    let f = build_format(&leaf("f", EntryType::File), &reg).unwrap();
    assert_eq!(label(&f), "F f");
}

#[test]
fn callback_errors_abort_the_build() {
    let lua = mlua::Lua::new();
    let reg = FormatterRegistry::new(
        lua_fn(&lua, "function(name, path, tick) error('boom') end"),
        lua_fn(&lua, "function(name, path, tick) return name end"),
        lua_fn(&lua, "function(name, path, tick) return name end"),
    );
    match build_format(&leaf("x", EntryType::File), &reg) {
        Err(FormatterError::Script(msg)) => assert!(msg.contains("boom")),
        other => panic!("unexpected result: {:?}", other),
    }
}

#[test]
fn bad_return_kinds_are_rejected() {
    let lua = mlua::Lua::new();
    let mk = |src: &str| {
        FormatterRegistry::new(
            lua_fn(&lua, src),
            lua_fn(&lua, "function(n, p, t) return n end"),
            lua_fn(&lua, "function(n, p, t) return n end"),
        )
    };
    let reg = mk("function(n, p, t) return 5 end");
    assert!(matches!(
        build_format(&leaf("x", EntryType::File), &reg),
        Err(FormatterError::BadReturn)
    ));
    let reg = mk("function(n, p, t) return {{chr='', col='red'}} end");
    assert!(matches!(
        build_format(&leaf("x", EntryType::File), &reg),
        Err(FormatterError::EmptyCell)
    ));
    let reg = mk("function(n, p, t) return {{chr='a', col='pink'}} end");
    match build_format(&leaf("x", EntryType::File), &reg) {
        Err(FormatterError::BadColorName(n)) => assert_eq!(n, "pink"),
        other => panic!("unexpected result: {:?}", other),
    }
    let reg = mk("function(n, p, t) return {{chr='a', col=5}} end");
    assert!(matches!(
        build_format(&leaf("x", EntryType::File), &reg),
        Err(FormatterError::BadColorValue)
    ));
    let reg = mk("function(n, p, t) return {{chr='a', col={300, 0, 0}}} end");
    assert!(matches!(
        build_format(&leaf("x", EntryType::File), &reg),
        Err(FormatterError::Script(_))
    ));
}

#[test]
fn one_bad_child_fails_the_whole_listing() {
    let lua = mlua::Lua::new();
    let reg = FormatterRegistry::new(
        lua_fn(&lua, "function(name, path, tick) if name == 'bad' then error('no') end return name end"),
        lua_fn(&lua, "function(name, path, tick) return name end"),
        lua_fn(&lua, "function(name, path, tick) return name end"),
    );
    let tree = Entry {
        childs: vec![leaf("good", EntryType::File), leaf("bad", EntryType::File)],
        ..leaf("top", EntryType::Dir)
    };
    assert!(matches!(
        build_format(&tree, &reg),
        Err(FormatterError::Script(_))
    ));
}

#[test]
fn scenario_full_listing() {
    // a.txt, B.txt and an empty sub/: walked without hidden entries,
    // sorted by name, one level deep, rendered as a tree
    let lua = mlua::Lua::new();
    let reg = FormatterRegistry::new(
        lua_fn(&lua, "function(name, path, tick) return name end"),
        lua_fn(&lua, "function(name, path, tick) return name .. '/' end"),
        lua_fn(&lua, "function(name, path, tick) return name end"),
    );
    let scan = vec![
        leaf("B.txt", EntryType::File),
        leaf("sub", EntryType::Dir),
        leaf("a.txt", EntryType::File),
        leaf(".hidden", EntryType::File),
    ];
    let req = List {
        sort_by: SortBy::Name,
        recursive: 1,
        list: false,
        hidden: false,
        paths: vec![".".to_string()],
    };
    let formats = req.get_formats(scan, &reg).unwrap();
    let labels: Vec<String> = formats.iter().map(label).collect();
    assert_eq!(
        labels,
        vec!["a.txt".to_string(), "B.txt".to_string(), "sub/".to_string()]
    );
    assert_eq!(req.render(&formats, 80), "a.txt\nB.txt\nsub/\n");
}

#[test]
fn callback_sees_the_path() {
    let lua = mlua::Lua::new();
    let reg = FormatterRegistry::new(
        lua_fn(&lua, "function(name, path, tick) return path end"),
        lua_fn(&lua, "function(name, path, tick) return name end"),
        lua_fn(&lua, "function(name, path, tick) return name end"),
    );
    let f = build_format(&leaf("x", EntryType::File), &reg).unwrap();
    assert_eq!(label(&f), "/t/x");
}

#[test]
fn errors_describe_themselves() {
    let e = FormatterError::BadColorName("pink".to_string());
    assert_eq!(e.describe(), "not a color name: pink");
    let e = FormatterError::Script("boom".to_string());
    assert_eq!(e.describe(), "formatter callback failed: boom");
    let e = FormatterError::BadReturn;
    assert_eq!(
        e.describe(),
        "formatter returned neither a string nor a table of cells"
    );
    let e = FormatterError::EmptyCell;
    assert_eq!(e.describe(), "a cell record holds no character");
    let e = FormatterError::BadColorValue;
    assert_eq!(
        e.describe(),
        "a color must be a name or a table of three numbers"
    );
}

#[test]
fn deeper_trees_build_and_render() {
    let lua = mlua::Lua::new();
    let reg = FormatterRegistry::new(
        lua_fn(&lua, "function(name, path, tick) return name end"),
        lua_fn(&lua, "function(name, path, tick) return name .. '/' end"),
        lua_fn(&lua, "function(name, path, tick) return name end"),
    );
    let tree = Entry {
        childs: vec![
            Entry {
                childs: vec![leaf("deep.txt", EntryType::File)],
                ..leaf("inner", EntryType::Dir)
            },
            leaf("top.txt", EntryType::File),
        ],
        ..leaf("root", EntryType::Dir)
    };
    let sorted = minexp::sort::sort_entry_tree(tree, &SortBy::Name);
    let f = build_format(&sorted, &reg).unwrap();
    let mut out: Vec<char> = Vec::new();
    minexp::render::rec_format_format(&f, 0, &mut out);
    let text: String = out.iter().collect();
    assert_eq!(text, "root/\n\tinner/\n\t\tdeep.txt\n\ttop.txt\n");
}

#[test]
fn record_helpers_fix_the_rules() {
    assert_eq!(chr_of(&"xyz".to_string()), Ok('x'));
    assert_eq!(chr_of(&"".to_string()), Err(FormatterError::EmptyCell));
    match raw_color_from(Some("red".to_string()), None) {
        Ok(RawColor::Named(n)) => assert_eq!(n, "red"),
        other => panic!("unexpected result: {:?}", other),
    }
    match raw_color_from(None, Some((1, 2, 3))) {
        Ok(RawColor::Rgb(1, 2, 3)) => {}
        other => panic!("unexpected result: {:?}", other),
    }
    assert!(matches!(
        raw_color_from(None, None),
        Err(FormatterError::BadColorValue)
    ));
    // the name wins over a triple when a record somehow offers both
    match raw_color_from(Some("blue".to_string()), Some((1, 2, 3))) {
        Ok(RawColor::Named(n)) => assert_eq!(n, "blue"),
        other => panic!("unexpected result: {:?}", other),
    }
}

#[test]
fn empty_scan_lists_nothing() {
    let lua = mlua::Lua::new();
    let reg = plain_registry(&lua);
    let req = List {
        sort_by: SortBy::Name,
        recursive: 0,
        list: true,
        hidden: false,
        paths: vec![".".to_string()],
    };
    let formats = req.get_formats(Vec::new(), &reg).unwrap();
    assert_eq!(formats.len(), 0);
}
