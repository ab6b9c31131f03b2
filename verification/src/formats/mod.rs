//! The configuration file formats, and how a file's format is told from its
//! name.
use vstd::prelude::*;
use crate::text::{concat3, text_eq, split};

pub mod reg;
pub mod reg_laws;
pub mod reg_reread;
pub mod ini;
pub mod yaml;
pub mod toml;

verus! {

/// A configuration file format.
#[derive(Clone, Copy, Debug, PartialEq, Eq, Structural)]
pub enum Format {
    Json,
    Toml,
    Yaml,
    Ini,
    Reg,
}

/// The format that a file extension (without its dot) names.
pub open spec fn format_named(ext: Seq<char>) -> Option<Format> {
    if ext == "json"@ {
        Some(Format::Json)
    } else if ext == "toml"@ {
        Some(Format::Toml)
    } else if ext == "yaml"@ || ext == "yml"@ {
        Some(Format::Yaml)
    } else if ext == "ini"@ || ext == "conf"@ || ext == "cfg"@ {
        Some(Format::Ini)
    } else if ext == "reg"@ {
        Some(Format::Reg)
    } else {
        None
    }
}

/// The format for a file whose extension is `ext` (`None`: no extension).
pub open spec fn format_for(ext: Option<Seq<char>>) -> Option<Format> {
    match ext {
        Some(e) => format_named(e),
        None => None,
    }
}

/// The format that the extension `ext` names; an error for an unknown
/// extension or for none.
pub fn format_for_extension(ext: Option<&str>) -> (r: Result<Format, String>)
    ensures
        match format_for(
            match ext {
                Some(e) => Some(e@),
                None => None,
            },
        ) {
            Some(f) => r == Ok::<Format, String>(f),
            None => r is Err,
        },
        r matches Err(msg) ==> match ext {
            Some(e) => msg@ == "unknown file extension '."@ + e@ + "', use --format to specify"@,
            None => msg@ == "no file extension, use --format to specify"@,
        },
{
    proof {
        reveal_strlit("json");
        reveal_strlit("toml");
        reveal_strlit("yaml");
        reveal_strlit("yml");
        reveal_strlit("ini");
        reveal_strlit("conf");
        reveal_strlit("cfg");
        reveal_strlit("reg");
    }
    match ext {
        Some(e) => {
            if text_eq(e, "json") {
                Ok(Format::Json)
            } else if text_eq(e, "toml") {
                Ok(Format::Toml)
            } else if text_eq(e, "yaml") || text_eq(e, "yml") {
                Ok(Format::Yaml)
            } else if text_eq(e, "ini") || text_eq(e, "conf") || text_eq(e, "cfg") {
                Ok(Format::Ini)
            } else if text_eq(e, "reg") {
                Ok(Format::Reg)
            } else {
                Err(concat3("unknown file extension '.", e, "', use --format to specify"))
            }
        },
        None => Err(String::from_str("no file extension, use --format to specify")),
    }
}

/// The index of the last `c` in `s`.
pub open spec fn last_index_of(s: Seq<char>, c: char) -> Option<int>
    decreases s.len(),
{
    if s.len() == 0 {
        None
    } else if s.last() == c {
        Some(s.len() - 1)
    } else {
        last_index_of(s.drop_last(), c)
    }
}

/// Whether `path` is read alike on every platform: it holds no `\` and no
/// drive colon, and does not start with `//` (a network share on Windows),
/// so that `/` alone separates its components.
pub open spec fn portable_path(path: Seq<char>) -> bool {
    &&& !path.contains('\\')
    &&& !path.contains(':')
    &&& !(path.len() >= 2 && path[0] == '/' && path[1] == '/')
}

/// The last of `parts` that is neither empty nor `.`.
pub open spec fn last_named(parts: Seq<Seq<char>>) -> Option<Seq<char>>
    decreases parts.len(),
{
    if parts.len() == 0 {
        None
    } else if parts.last().len() == 0 || parts.last() == seq!['.'] {
        last_named(parts.drop_last())
    } else {
        Some(parts.last())
    }
}

/// The file name of a portable path: its last `/`-separated component, empty
/// components and `.` left out, unless that component is `..`.
pub open spec fn file_name_of(path: Seq<char>) -> Option<Seq<char>> {
    match last_named(split(path, '/')) {
        Some(n) => if n == seq!['.', '.'] {
            None
        } else {
            Some(n)
        },
        None => None,
    }
}

/// The extension of a portable path: that of its file name.
pub open spec fn path_extension(path: Seq<char>) -> Option<Seq<char>> {
    match file_name_of(path) {
        Some(n) => name_extension(n),
        None => None,
    }
}

/// The extension of a bare file name: the text after its last `.`, unless
/// that dot is its first character (or there is none).
pub open spec fn name_extension(name: Seq<char>) -> Option<Seq<char>> {
    match last_index_of(name, '.') {
        Some(i) => if i > 0 {
            Some(name.skip(i + 1))
        } else {
            None
        },
        None => None,
    }
}

/// What detecting the format gives for a file with extension `ext`: the
/// format it names, or the error for an unknown extension or for none.
pub open spec fn detected(ext: Option<Seq<char>>, r: Result<Format, String>) -> bool {
    match format_for(ext) {
        Some(f) => r == Ok::<Format, String>(f),
        None => r matches Err(msg) && match ext {
            Some(e) => msg@ == "unknown file extension '."@ + e + "', use --format to specify"@,
            None => msg@ == "no file extension, use --format to specify"@,
        },
    }
}

/// The extension of the file that `path` names.
///
/// Calls `std::path::Path::extension`, documented as the part of the file
/// name after its final `.`, and `None` where there is no file name, no dot,
/// or only a leading dot. The file name is the last component when that is a
/// normal one (not `..`, not a root); components are separated by `/`
/// (and, on Windows, `\`), repeated separators and `.` components after the
/// first are left out (`Path::components`). An extension so taken holds no
/// `.` and no `/`. For a portable path (see [`portable_path`]) the file name
/// is therefore [`file_name_of`] on every platform; for other paths how it
/// splits depends on the platform, and the contract says no more.
#[verifier::external_body]
fn extension_of(path: &str) -> (r: Option<String>)
    ensures
        r matches Some(e) ==> !e@.contains('.') && !e@.contains('/'),
        portable_path(path@) ==> match path_extension(path@) {
            Some(x) => r matches Some(e) && e@ == x,
            None => r is None,
        },
{
    std::path::Path::new(path).extension().and_then(|e| e.to_str()).map(|e| e.to_string())
}

/// The format of the file that `path` names, told from its extension as
/// [`format_for_extension`] does. For a portable path the extension is that
/// of its last component (see [`path_extension`]); for other paths the
/// platform's path rules find the file name.
pub fn detect_format(path: &str) -> (r: Result<Format, String>)
    ensures
        portable_path(path@) ==> detected(path_extension(path@), r),
        exists|ext: Option<Seq<char>>|
            (ext matches Some(e) ==> !e.contains('.') && !e.contains('/')) && #[trigger] detected(ext, r),
{
    let ext = extension_of(path);
    let r = match &ext {
        Some(e) => format_for_extension(Some(e.as_str())),
        None => format_for_extension(None),
    };
    let ghost ev = match ext {
        Some(e) => Some(e@),
        None => None::<Seq<char>>,
    };
    assert(detected(ev, r));
    r
}

} // verus!
