use vstd::prelude::*;
use crate::cells::{normalize, FmtValue, Format, FormatterError, RawCell, RawColor};
use crate::entry::{ext_spec, extension_of, Entry, EntryType};
use crate::lua::{
    call_formatter, lua_error_text, table_records, table_text_field, table_u8_at,
    table_value_field, value_table, value_text,
};
use crate::registry::{assoc, FileType, FormatterRegistry};

verus! {

/// The formatter the dispatch resolves for a file: the override
/// installed for the name's lowercased extension, or the generic file
/// callback when the name has no extension or no override matches.
pub open spec fn file_formatter_spec(reg: FormatterRegistry, name: Seq<char>) -> mlua::Function {
    match ext_spec(name) {
        Some(e) => match assoc(reg.file_exts@, e) {
            Some(f) => f,
            None => reg.file_default,
        },
        None => reg.file_default,
    }
}

/// The formatter the dispatch resolves for an entry, by its kind: a
/// file by its extension, a directory and a symbolic link always by
/// their generic slot. There is no error path: the generic slots are
/// always present.
pub open spec fn resolve_spec(reg: FormatterRegistry, ty: EntryType, name: Seq<char>) -> (r:
    mlua::Function) {
    match ty {
        EntryType::File => file_formatter_spec(reg, name),
        EntryType::Dir => reg.dir_default,
        EntryType::SymLink => reg.link_default,
    }
}

/// The formatting key for an entry of the given kind and name: a file
/// keys by its lowercased extension when it has one; directories and
/// symbolic links always key by their generic slot.
pub fn resolve_key(ty: &EntryType, name: &String) -> (k: FileType)
    ensures
        match k {
            FileType::OtherFile(e) => *ty is File && ext_spec(name@) == Some(e@),
            FileType::GenericFile => *ty is File && ext_spec(name@) is None,
            FileType::GenericDir => *ty is Dir,
            FileType::GenericSymLink => *ty is SymLink,
            FileType::OtherDir(_) => false,
        },
{
    match ty {
        EntryType::File => match extension_of(name) {
            Some(e) => FileType::OtherFile(e),
            None => FileType::GenericFile,
        },
        EntryType::Dir => FileType::GenericDir,
        EntryType::SymLink => FileType::GenericSymLink,
    }
}

/// The formatter for a file with the given name.
pub fn format_file<'a>(reg: &'a FormatterRegistry, name: &String) -> (r: &'a mlua::Function)
    ensures
        *r == file_formatter_spec(*reg, name@),
{
    let key = resolve_key(&EntryType::File, name);
    reg.lookup(&key)
}

/// The formatter for a directory: always the generic directory slot.
pub fn format_dir<'a>(reg: &'a FormatterRegistry, _name: &String) -> (r: &'a mlua::Function)
    ensures
        *r == reg.dir_default,
{
    &reg.dir_default
}

/// The formatter for a symbolic link: always the generic symlink slot.
pub fn format_link<'a>(reg: &'a FormatterRegistry, _name: &String) -> (r: &'a mlua::Function)
    ensures
        *r == reg.link_default,
{
    &reg.link_default
}

/// The formatter for an entry, by its kind and name.
pub fn resolve<'a>(reg: &'a FormatterRegistry, ty: &EntryType, name: &String) -> (r:
    &'a mlua::Function)
    ensures
        *r == resolve_spec(*reg, *ty, name@),
{
    match ty {
        EntryType::File => format_file(reg, name),
        EntryType::Dir => format_dir(reg, name),
        EntryType::SymLink => format_link(reg, name),
    }
}

/// The character a cell record's `chr` text supplies: its first; a
/// text with no character fails the record.
pub fn chr_of(s: &String) -> (r: Result<char, FormatterError>)
    ensures
        s@.len() == 0 ==> r == Err::<char, FormatterError>(FormatterError::EmptyCell),
        s@.len() > 0 ==> r == Ok::<char, FormatterError>(s@[0]),
{
    let n = s.as_str().unicode_len();
    if n == 0 {
        Err(FormatterError::EmptyCell)
    } else {
        Ok(s.as_str().get_char(0))
    }
}

/// The raw color a record's `col` field denotes, chosen from the plain
/// evidence read out of it: text names a color; failing that, a
/// numeric triple stands as given; neither is a formatting error.
pub fn raw_color_from(name: Option<String>, triple: Option<(u8, u8, u8)>) -> (r: Result<
    RawColor,
    FormatterError,
>)
    ensures
        match name {
            Some(n) => r == Ok::<RawColor, FormatterError>(RawColor::Named(n)),
            None => match triple {
                Some(t) => r == Ok::<RawColor, FormatterError>(RawColor::Rgb(t.0, t.1, t.2)),
                None => r == Err::<RawColor, FormatterError>(FormatterError::BadColorValue),
            },
        },
{
    match name {
        Some(n) => Ok(RawColor::Named(n)),
        None => match triple {
            Some((r, g, b)) => Ok(RawColor::Rgb(r, g, b)),
            None => Err(FormatterError::BadColorValue),
        },
    }
}

/// Reads what a callback returned into the tagged form of the call
/// contract: the text of a string return, or the cell records of a
/// table return. The engine's values are opaque, so this function can
/// promise nothing of its own; every decision it takes on plain values
/// stands in a contracted function — `chr_of` for the character rule,
/// `raw_color_from` for the color shapes, and `normalize` downstream
/// for the color names — and anything that is neither string nor
/// table is a formatting error; so is an engine error while reading.
#[verifier::loop_isolation(false)]
pub fn decode_value(v: &mlua::Value) -> Result<FmtValue, FormatterError> {
    match value_text(v) {
        Some(s) => Ok(FmtValue::Text(s)),
        None => match value_table(v) {
            Some(t) => {
                let records = match table_records(t) {
                    Ok(r) => r,
                    Err(e) => {
                        return Err(FormatterError::Script(lua_error_text(&e)));
                    },
                };
                let mut cells: Vec<RawCell> = Vec::new();
                let n = records.len();
                let mut i: usize = 0;
                while i < n
                    invariant
                        i <= n,
                    decreases n - i,
                {
                    let rec = &records[i];
                    let chr_text = match table_text_field(rec, "chr") {
                        Ok(s) => s,
                        Err(e) => {
                            return Err(FormatterError::Script(lua_error_text(&e)));
                        },
                    };
                    let chr = match chr_of(&chr_text) {
                        Ok(c) => c,
                        Err(er) => {
                            return Err(er);
                        },
                    };
                    let col_value = match table_value_field(rec, "col") {
                        Ok(cv) => cv,
                        Err(e) => {
                            return Err(FormatterError::Script(lua_error_text(&e)));
                        },
                    };
                    let name_text = value_text(&col_value);
                    let triple = if name_text.is_none() {
                        match value_table(&col_value) {
                            Some(ct) => {
                                let r = match table_u8_at(ct, 1) {
                                    Ok(x) => x,
                                    Err(e) => {
                                        return Err(FormatterError::Script(lua_error_text(&e)));
                                    },
                                };
                                let g = match table_u8_at(ct, 2) {
                                    Ok(x) => x,
                                    Err(e) => {
                                        return Err(FormatterError::Script(lua_error_text(&e)));
                                    },
                                };
                                let b = match table_u8_at(ct, 3) {
                                    Ok(x) => x,
                                    Err(e) => {
                                        return Err(FormatterError::Script(lua_error_text(&e)));
                                    },
                                };
                                Some((r, g, b))
                            },
                            None => None,
                        }
                    } else {
                        None
                    };
                    let col = match raw_color_from(name_text, triple) {
                        Ok(c) => c,
                        Err(er) => {
                            return Err(er);
                        },
                    };
                    cells.push((chr, col));
                    i = i + 1;
                }
                Ok(FmtValue::Cells(cells))
            },
            None => Err(FormatterError::BadReturn),
        },
    }
}

/// Whether a format tree has the shape of an entry tree: one format
/// per entry, child for child, in order.
pub open spec fn format_mirrors(e: Entry, f: Format) -> bool
    decreases e,
{
    &&& f.childs@.len() == e.childs@.len()
    &&& forall|i: int|
        0 <= i < e.childs@.len() ==> format_mirrors(#[trigger] e.childs@[i], f.childs@[i])
}

/// Builds the format tree of one entry: builds the children first, in
/// order, then resolves this entry's formatter by kind and name,
/// invokes it with the name, the path and the reserved tick argument,
/// and normalizes what came back into the cell line. One child's
/// failure fails the whole build: no partial tree is handed out.
#[verifier::loop_isolation(false)]
pub fn build_format(e: &Entry, reg: &FormatterRegistry) -> (r: Result<Format, FormatterError>)
    ensures
        r matches Ok(f) ==> format_mirrors(*e, f),
    decreases *e,
{
    let n = e.childs.len();
    let mut childs: Vec<Format> = Vec::new();
    let mut i: usize = 0;
    while i < n
        invariant
            i <= n,
            childs@.len() == i,
            forall|k: int| 0 <= k < i ==> format_mirrors(#[trigger] e.childs@[k], childs@[k]),
        decreases n - i,
    {
        proof {
            assert(decreases_to!(*e => e.childs@[i as int]));
        }
        match build_format(&e.childs[i], reg) {
            Ok(f) => {
                childs.push(f);
            },
            Err(er) => {
                return Err(er);
            },
        }
        i = i + 1;
    }
    let formatter = resolve(reg, &e.ty, &e.name);
    let value = match call_formatter(formatter, e.name.as_str(), e.path.as_str(), 0) {
        Ok(v) => v,
        Err(er) => {
            return Err(FormatterError::Script(lua_error_text(&er)));
        },
    };
    let fv = match decode_value(&value) {
        Ok(fv) => fv,
        Err(er) => {
            return Err(er);
        },
    };
    let cells = match normalize(&fv) {
        Ok(c) => c,
        Err(er) => {
            return Err(er);
        },
    };
    Ok(Format { v: cells, childs })
}

} // verus!
