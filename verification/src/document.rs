//! The sections and key/value pairs of an INI document, as plain values.
use vstd::prelude::*;
use crate::decimal::chars_of;

verus! {

/// One `key = value` line of a section.
pub struct IniEntry {
    pub key: String,
    pub value: String,
}

/// A section: its name (`None` for keys before the first header) and its entries.
pub struct IniSection {
    pub name: Option<String>,
    pub entries: Vec<IniEntry>,
}

/// A section as a value: its name and its (key, value) pairs.
pub type SectionView = (Option<Seq<char>>, Seq<(Seq<char>, Seq<char>)>);

impl View for IniEntry {
    type V = (Seq<char>, Seq<char>);

    open spec fn view(&self) -> (Seq<char>, Seq<char>) {
        (self.key@, self.value@)
    }
}

impl View for IniSection {
    type V = SectionView;

    open spec fn view(&self) -> SectionView {
        (
            match self.name {
                Some(n) => Some(n@),
                None => None,
            },
            self.entries@.map_values(|e: IniEntry| e@),
        )
    }
}

/// The views of a sequence of sections.
pub open spec fn section_views(v: Seq<IniSection>) -> Seq<SectionView> {
    v.map_values(|s: IniSection| s@)
}

/// The name of a named section (the empty text for the unnamed one).
pub open spec fn section_name(s: SectionView) -> Seq<char> {
    match s.0 {
        Some(n) => n,
        None => Seq::empty(),
    }
}

/// A parsed document: each section name mapped to the section's keys and values.
pub type Document = Map<Option<Seq<char>>, Map<Seq<char>, Seq<char>>>;

/// `es` lists the entries of `m`, each key once, in some order.
pub open spec fn lists_entries(es: Seq<(Seq<char>, Seq<char>)>, m: Map<Seq<char>, Seq<char>>) -> bool {
    &&& forall|i: int, j: int| 0 <= i < j < es.len() ==> #[trigger] es[i].0 != #[trigger] es[j].0
    &&& forall|i: int|
        0 <= i < es.len() ==> m.contains_key(#[trigger] es[i].0) && m[es[i].0] == es[i].1
    &&& forall|k: Seq<char>|
        #[trigger] m.contains_key(k) ==> exists|i: int| 0 <= i < es.len() && #[trigger] es[i].0 == k
}

/// `ss` lists the sections of `doc`, each section once, in some order.
pub open spec fn lists_document(ss: Seq<SectionView>, doc: Document) -> bool {
    &&& forall|i: int, j: int| 0 <= i < j < ss.len() ==> #[trigger] ss[i].0 != #[trigger] ss[j].0
    &&& forall|i: int|
        0 <= i < ss.len() ==> doc.contains_key(#[trigger] ss[i].0) && lists_entries(
            ss[i].1,
            doc[ss[i].0],
        )
    &&& forall|k: Option<Seq<char>>|
        #[trigger] doc.contains_key(k) ==> exists|i: int| 0 <= i < ss.len() && #[trigger] ss[i].0 == k
}

pub open spec fn is_hex_digit(c: char) -> bool {
    ('0' <= c && c <= '9') || ('a' <= c && c <= 'f') || ('A' <= c && c <= 'F')
}

/// A hex digit from 8 to F.
pub open spec fn is_high_hex_digit(c: char) -> bool {
    c == '8' || c == '9' || ('a' <= c && c <= 'f') || ('A' <= c && c <= 'F')
}

/// At `i` stands a `\x` escape whose four hex digits name a UTF-16
/// surrogate (D800 to DFFF): no `char` has that code.
pub open spec fn surrogate_escape_at(s: Seq<char>, i: int) -> bool {
    &&& 0 <= i
    &&& i + 6 <= s.len()
    &&& s[i] == '\\'
    &&& s[i + 1] == 'x'
    &&& (s[i + 2] == 'd' || s[i + 2] == 'D')
    &&& is_high_hex_digit(s[i + 3])
    &&& is_hex_digit(s[i + 4])
    &&& is_hex_digit(s[i + 5])
}

/// Unicode's White_Space property, which `char::is_whitespace` tests.
pub open spec fn is_white_space(c: char) -> bool {
    ||| ('\u{9}' <= c && c <= '\u{d}')
    ||| c == ' '
    ||| c == '\u{85}'
    ||| c == '\u{a0}'
    ||| c == '\u{1680}'
    ||| ('\u{2000}' <= c && c <= '\u{200a}')
    ||| c == '\u{2028}'
    ||| c == '\u{2029}'
    ||| c == '\u{202f}'
    ||| c == '\u{205f}'
    ||| c == '\u{3000}'
}

fn white_space(c: char) -> (r: bool)
    ensures
        r == is_white_space(c),
{
    ('\u{9}' <= c && c <= '\u{d}') || c == ' ' || c == '\u{85}' || c == '\u{a0}' || c == '\u{1680}'
        || ('\u{2000}' <= c && c <= '\u{200a}') || c == '\u{2028}' || c == '\u{2029}' || c
        == '\u{202f}' || c == '\u{205f}' || c == '\u{3000}'
}

/// Where the INI reader stands: between items, in a comment, or in the text
/// of a section name, a key, the start of a value, a quoted value or the
/// rest of a value.
#[derive(PartialEq, Eq, Structural, Clone, Copy)]
pub enum ScanMode {
    Top,
    Comment,
    Section,
    Key,
    ValueStart,
    DoubleQuoted,
    SingleQuoted,
    Value,
}

pub open spec fn scan_rank(m: ScanMode) -> int {
    match m {
        ScanMode::Top => 1,
        ScanMode::ValueStart => 1,
        _ => 0,
    }
}

/// The character that ends the text of a section name, key or value.
pub open spec fn ends_text(m: ScanMode, c: char) -> bool {
    match m {
        ScanMode::Section => c == ']',
        ScanMode::Key => c == '=' || c == ':',
        ScanMode::DoubleQuoted => c == '"',
        ScanMode::SingleQuoted => c == '\'',
        _ => c == '\n' || c == '\r' || c == ';' || c == '#',
    }
}

/// Where the reader goes on at `p` in mode `m`, when it does not stop there;
/// `None` where it stops (at the end of the text, or on an escape cut off
/// by it).
pub open spec fn scan_next(s: Seq<char>, p: int, m: ScanMode) -> Option<(int, ScanMode)> {
    if p < 0 || p >= s.len() {
        None
    } else {
        let c = s[p];
        match m {
            ScanMode::Top => if is_white_space(c) {
                Some((p + 1, ScanMode::Top))
            } else if c == ';' || c == '#' {
                Some((p + 1, ScanMode::Comment))
            } else if c == '[' {
                Some((p + 1, ScanMode::Section))
            } else if c == '=' || c == ':' {
                Some((p + 1, ScanMode::ValueStart))
            } else {
                Some((p, ScanMode::Key))
            },
            ScanMode::Comment => if c == '\n' {
                Some((p + 1, ScanMode::Top))
            } else {
                Some((p + 1, ScanMode::Comment))
            },
            ScanMode::ValueStart => if is_white_space(c) && c != '\n' && c != '\r' {
                Some((p + 1, ScanMode::ValueStart))
            } else if c == '"' {
                Some((p + 1, ScanMode::DoubleQuoted))
            } else if c == '\'' {
                Some((p + 1, ScanMode::SingleQuoted))
            } else {
                Some((p, ScanMode::Value))
            },
            _ => if ends_text(m, c) {
                match m {
                    ScanMode::Section => Some((p + 1, ScanMode::Top)),
                    ScanMode::Key => Some((p + 1, ScanMode::ValueStart)),
                    ScanMode::DoubleQuoted => Some((p + 1, ScanMode::Value)),
                    ScanMode::SingleQuoted => Some((p + 1, ScanMode::Value)),
                    _ => if c == ';' || c == '#' {
                        Some((p + 1, ScanMode::Comment))
                    } else {
                        Some((p + 1, ScanMode::Top))
                    },
                }
            } else if c == '\\' {
                if p + 1 >= s.len() {
                    None
                } else if s[p + 1] == 'x' {
                    if p + 6 <= s.len() {
                        Some((p + 6, m))
                    } else {
                        None
                    }
                } else {
                    Some((p + 2, m))
                }
            } else {
                Some((p + 1, m))
            },
        }
    }
}

/// The reader, from `p` in mode `m`, decodes a `\x` escape that names a
/// surrogate. The reader follows rust-ini's parser: escapes are decoded in
/// section names, keys and values, not in comments, and a backslash that an
/// escape consumes starts no escape of its own.
pub open spec fn decodes_surrogate_from(s: Seq<char>, p: int, m: ScanMode) -> bool
    decreases 2 * (s.len() - p) + scan_rank(m),
{
    match scan_next(s, p, m) {
        Some((q, m2)) => {
            let here = m != ScanMode::Top && m != ScanMode::Comment && m != ScanMode::ValueStart
                && !ends_text(m, s[p]) && surrogate_escape_at(s, p);
            if 0 <= p < q <= s.len() || (q == p && scan_rank(m2) < scan_rank(m)) {
                here || decodes_surrogate_from(s, q, m2)
            } else {
                here
            }
        },
        None => false,
    }
}

/// rust-ini would decode a `\x` escape naming a surrogate in this text.
/// Where the text reads without error up to that escape, rust-ini's parser
/// stops the program there; elsewhere it decodes no such escape.
pub open spec fn has_surrogate_escape(s: Seq<char>) -> bool {
    decodes_surrogate_from(s, 0, ScanMode::Top)
}

fn hex_digit(c: char) -> (r: bool)
    ensures
        r == is_hex_digit(c),
{
    ('0' <= c && c <= '9') || ('a' <= c && c <= 'f') || ('A' <= c && c <= 'F')
}

fn escape_here(cs: &Vec<char>, p: usize) -> (r: bool)
    requires
        p < cs.len(),
    ensures
        r == surrogate_escape_at(cs@, p as int),
{
    if cs.len() - p < 6 {
        return false;
    }
    cs[p] == '\\' && cs[p + 1] == 'x' && (cs[p + 2] == 'd' || cs[p + 2] == 'D') && (cs[p + 3]
        == '8' || cs[p + 3] == '9' || ('a' <= cs[p + 3] && cs[p + 3] <= 'f') || ('A' <= cs[p + 3]
        && cs[p + 3] <= 'F')) && hex_digit(cs[p + 4]) && hex_digit(cs[p + 5])
}

fn scan_step(cs: &Vec<char>, p: usize, m: ScanMode) -> (r: Option<(usize, ScanMode)>)
    requires
        p < cs.len(),
    ensures
        match r {
            Some((q, m2)) => scan_next(cs@, p as int, m) == Some((q as int, m2)),
            None => scan_next(cs@, p as int, m) is None,
        },
{
    let c = cs[p];
    match m {
        ScanMode::Top => if white_space(c) {
            Some((p + 1, ScanMode::Top))
        } else if c == ';' || c == '#' {
            Some((p + 1, ScanMode::Comment))
        } else if c == '[' {
            Some((p + 1, ScanMode::Section))
        } else if c == '=' || c == ':' {
            Some((p + 1, ScanMode::ValueStart))
        } else {
            Some((p, ScanMode::Key))
        },
        ScanMode::Comment => if c == '\n' {
            Some((p + 1, ScanMode::Top))
        } else {
            Some((p + 1, ScanMode::Comment))
        },
        ScanMode::ValueStart => if white_space(c) && c != '\n' && c != '\r' {
            Some((p + 1, ScanMode::ValueStart))
        } else if c == '"' {
            Some((p + 1, ScanMode::DoubleQuoted))
        } else if c == '\'' {
            Some((p + 1, ScanMode::SingleQuoted))
        } else {
            Some((p, ScanMode::Value))
        },
        _ => {
            let ends = match m {
                ScanMode::Section => c == ']',
                ScanMode::Key => c == '=' || c == ':',
                ScanMode::DoubleQuoted => c == '"',
                ScanMode::SingleQuoted => c == '\'',
                _ => c == '\n' || c == '\r' || c == ';' || c == '#',
            };
            if ends {
                match m {
                    ScanMode::Section => Some((p + 1, ScanMode::Top)),
                    ScanMode::Key => Some((p + 1, ScanMode::ValueStart)),
                    ScanMode::DoubleQuoted => Some((p + 1, ScanMode::Value)),
                    ScanMode::SingleQuoted => Some((p + 1, ScanMode::Value)),
                    _ => if c == ';' || c == '#' {
                        Some((p + 1, ScanMode::Comment))
                    } else {
                        Some((p + 1, ScanMode::Top))
                    },
                }
            } else if c == '\\' {
                if p + 1 >= cs.len() {
                    None
                } else if cs[p + 1] == 'x' {
                    if cs.len() - p >= 6 {
                        Some((p + 6, m))
                    } else {
                        None
                    }
                } else {
                    Some((p + 2, m))
                }
            } else {
                Some((p + 1, m))
            }
        },
    }
}

/// Whether rust-ini would decode a `\x` escape naming a surrogate in the
/// text: it follows the parser through section names, keys, values and
/// comments, and looks at the escapes that the parser decodes.
pub fn find_surrogate_escape(text: &str) -> (r: bool)
    ensures
        r == has_surrogate_escape(text@),
{
    let cs = chars_of(text);
    let n = cs.len();
    let mut p: usize = 0;
    let mut m = ScanMode::Top;
    while p < n
        invariant
            cs@ == text@,
            n == cs.len(),
            p <= n,
            has_surrogate_escape(text@) == decodes_surrogate_from(cs@, p as int, m),
        decreases 2 * (n - p) + scan_rank(m),
    {
        let here = m != ScanMode::Top && m != ScanMode::Comment && m != ScanMode::ValueStart
            && !ends_char(m, cs[p]) && escape_here(&cs, p);
        match scan_step(&cs, p, m) {
            Some((q, m2)) => {
                if here {
                    return true;
                }
                p = q;
                m = m2;
            },
            None => {
                return false;
            },
        }
    }
    false
}

fn ends_char(m: ScanMode, c: char) -> (r: bool)
    ensures
        r == ends_text(m, c),
{
    match m {
        ScanMode::Section => c == ']',
        ScanMode::Key => c == '=' || c == ':',
        ScanMode::DoubleQuoted => c == '"',
        ScanMode::SingleQuoted => c == '\'',
        _ => c == '\n' || c == '\r' || c == ';' || c == '#',
    }
}

#[verifier::external_type_specification]
#[verifier::external_body]
pub struct ExIniParseError(ini::ini::ParseError);

/// The document that rust-ini's `Ini::load_from_str` reads from `text`
/// (section names, keys and values trimmed, quotes and escapes resolved,
/// later duplicates replacing earlier ones), or `None` where it reports a
/// parse error.
pub uninterp spec fn ini_document(text: Seq<char>) -> Option<Document>;

/// Calls `ini::Ini::load_from_str` and walks the document it returns,
/// section by section and key by key. rust-ini keeps sections and keys in
/// hash maps, so the order of the walk is not fixed: the contract claims
/// that the outcome lists the document named `ini_document(text)`, each
/// section and each key once, and says nothing of the order.
/// The parser stops the program (an `unwrap` on `char::from_u32`) when it
/// decodes a `\x` escape whose four hex digits name a surrogate; the
/// `requires` leaves out every text in which it would reach such an escape
/// (`has_surrogate_escape` follows the parser up to it).
#[verifier::external_body]
pub(crate) fn load_ini(text: &str) -> (r: Result<Vec<IniSection>, ini::ini::ParseError>)
    requires
        !has_surrogate_escape(text@),
    ensures
        match r {
            Ok(secs) => ini_document(text@) is Some && lists_document(
                section_views(secs@),
                ini_document(text@)->0,
            ),
            Err(_) => ini_document(text@) is None,
        },
{
    ini::Ini::load_from_str(text).map(
        |doc|
            doc.into_iter().map(
                |(name, props)|
                    IniSection {
                        name,
                        entries: props.into_iter().map(|(key, value)| IniEntry { key, value }).collect(),
                    },
            ).collect(),
    )
}

} // verus!
