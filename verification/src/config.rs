//! Configuration file naming rules: which serialization format a path's
//! extension selects, and the default configuration file name for a chosen
//! format. Reading and writing the files themselves is I/O and lives with
//! the caller.

use vstd::prelude::*;

verus! {

/// The position of the last dot of the file name part of `s[..j]`: the
/// scan backwards stops at a path separator.
pub open spec fn last_dot_from(s: Seq<char>, j: int) -> Option<int>
    decreases j,
{
    if j <= 0 || j > s.len() {
        None
    } else if s[j - 1] == '/' {
        None
    } else if s[j - 1] == '.' {
        Some(j - 1)
    } else {
        last_dot_from(s, j - 1)
    }
}

/// The extension of a path: what follows the last dot of its file name,
/// unless the dot starts the name.
pub open spec fn ext_of(s: Seq<char>) -> Option<Seq<char>> {
    match last_dot_from(s, s.len() as int) {
        Some(p) => if p > 0 && s[p - 1] != '/' {
            Some(s.skip(p + 1))
        } else {
            None
        },
        None => None,
    }
}

/// The serialization format a path selects by its extension; anything
/// unrecognized falls back to the block format.
pub open spec fn format_name(s: Seq<char>) -> Seq<char> {
    match ext_of(s) {
        Some(e) => if e == "toml"@ {
            "toml"@
        } else if e == "json"@ {
            "json"@
        } else {
            "yaml"@
        },
        None => "yaml"@,
    }
}

/// Infers the configuration format from a path's extension.
#[verifier::loop_isolation(false)]
pub fn infer_format(path: &str) -> (r: String)
    ensures
        r@ == format_name(path@),
{
    let n = path.unicode_len();
    let mut j: usize = n;
    while j > 0
        invariant
            j <= n,
            n == path@.len(),
            last_dot_from(path@, n as int) == last_dot_from(path@, j as int),
        decreases j,
    {
        let c = path.get_char(j - 1);
        if c == '/' {
            return "yaml".to_owned();
        }
        if c == '.' {
            let p = j - 1;
            if p == 0 || path.get_char(p - 1) == '/' {
                return "yaml".to_owned();
            }
            let e = path.substring_char(p + 1, n);
            proof {
                assert(e@ =~= path@.skip(p as int + 1));
            }
            if crate::text::str_eq(e, "toml") {
                return "toml".to_owned();
            }
            if crate::text::str_eq(e, "json") {
                return "json".to_owned();
            }
            return "yaml".to_owned();
        }
        j = j - 1;
    }
    "yaml".to_owned()
}

/// The default configuration file name for a preferred format; no
/// preference means the block format.
pub fn default_config_path_with_format(prefer: Option<String>) -> (r: (String, String))
    ensures
        prefer matches Some(p) ==> r.1@ == p@,
        prefer is None ==> r.1@ == "yaml"@,
        r.0@ == if r.1@ == "toml"@ {
            "gh-otco.toml"@
        } else if r.1@ == "json"@ {
            "gh-otco.json"@
        } else {
            "gh-otco.yaml"@
        },
{
    let fmt = match prefer {
        Some(p) => p,
        None => "yaml".to_owned(),
    };
    let name = if crate::text::str_eq(fmt.as_str(), "toml") {
        "gh-otco.toml".to_owned()
    } else if crate::text::str_eq(fmt.as_str(), "json") {
        "gh-otco.json".to_owned()
    } else {
        "gh-otco.yaml".to_owned()
    };
    (name, fmt)
}

} // verus!

use crate::requests::opt_str;
use crate::OutputFormat;

verus! {

/// An ASCII capital letter mapped to its small form; anything else is
/// unchanged.
pub open spec fn lower_char(c: char) -> char {
    if 'A' <= c && c <= 'Z' {
        (((c as u8) + 32) as char)
    } else {
        c
    }
}

/// A name with its ASCII capitals mapped to small letters.
pub open spec fn lower_seq(s: Seq<char>) -> Seq<char> {
    s.map_values(|c: char| lower_char(c))
}

/// Maps a name to ASCII small letters.
#[verifier::loop_isolation(false)]
pub fn ascii_lowercase(s: &str) -> (r: String)
    ensures
        r@ == lower_seq(s@),
{
    let n = s.unicode_len();
    let mut out = String::new();
    let mut i: usize = 0;
    while i < n
        invariant
            i <= n,
            n == s@.len(),
            out@ =~= lower_seq(s@.take(i as int)),
        decreases n - i,
    {
        let c = s.get_char(i);
        let l: char = if 'A' <= c && c <= 'Z' {
            ((c as u8) + 32) as char
        } else {
            c
        };
        crate::value::push_char(&mut out, l);
        proof {
            assert(out@ =~= lower_seq(s@.take(i as int + 1)));
        }
        i = i + 1;
    }
    proof {
        assert(s@.take(n as int) =~= s@);
    }
    out
}

/// The output format a name selects; anything unrecognized is the table.
pub open spec fn format_of_name(s: Seq<char>) -> OutputFormat {
    if s == "json"@ {
        OutputFormat::Json
    } else if s == "yaml"@ {
        OutputFormat::Yaml
    } else if s == "csv"@ {
        OutputFormat::Csv
    } else if s == "psv"@ {
        OutputFormat::Psv
    } else {
        OutputFormat::Table
    }
}

/// Parses an output format name.
pub fn parse_output_format(s: &str) -> (r: OutputFormat)
    ensures
        r == format_of_name(s@),
{
    if crate::text::str_eq(s, "json") {
        OutputFormat::Json
    } else if crate::text::str_eq(s, "yaml") {
        OutputFormat::Yaml
    } else if crate::text::str_eq(s, "csv") {
        OutputFormat::Csv
    } else if crate::text::str_eq(s, "psv") {
        OutputFormat::Psv
    } else {
        OutputFormat::Table
    }
}

/// The effective base address: the command line wins over the environment,
/// which wins over the configuration file.
pub fn resolve_api_url(cli: Option<&str>, env: Option<&str>, file: &str) -> (r: String)
    ensures
        r@ == match opt_str(cli) {
            Some(c) => c,
            None => match opt_str(env) {
                Some(e) => e,
                None => file@,
            },
        },
{
    match cli {
        Some(c) => c.to_owned(),
        None => match env {
            Some(e) => e.to_owned(),
            None => file.to_owned(),
        },
    }
}

/// The effective output format: an explicit command-line choice wins; else
/// the environment's name, else the configuration file's name in small
/// letters, decides.
pub fn resolve_output_format(cli: Option<OutputFormat>, env: Option<&str>, file: &str) -> (r:
    OutputFormat)
    ensures
        r == match cli {
            Some(f) => f,
            None => format_of_name(
                match opt_str(env) {
                    Some(e) => e,
                    None => lower_seq(file@),
                },
            ),
        },
{
    match cli {
        Some(f) => f,
        None => match env {
            Some(e) => parse_output_format(e),
            None => {
                let l = ascii_lowercase(file);
                parse_output_format(l.as_str())
            },
        },
    }
}

} // verus!
