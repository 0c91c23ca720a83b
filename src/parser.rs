//! The instance file format: header lines `KEY : value` and a
//! `NODE_COORD_SECTION` of `<index> <x> <y>` lines. Parsing stops short of
//! the coordinates' numeric values, which are read by the caller.

use vstd::prelude::*;
use crate::tsplib::{EdgeWeightType, TsplibError};

verus! {

/// The groups a regular expression captures in a text: `None` when it does
/// not match, otherwise one entry per group, `None` for a group that took
/// no part in the match.
pub uninterp spec fn regex_groups(pattern: Seq<char>, text: Seq<char>) -> Option<Seq<Option<Seq<char>>>>;

/// A text with leading and trailing white space removed.
pub uninterp spec fn trimmed(s: Seq<char>) -> Seq<char>;

pub open spec fn groups_view(g: Seq<Option<String>>) -> Seq<Option<Seq<char>>> {
    Seq::new(
        g.len(),
        |i: int|
            match g[i] {
                Some(s) => Some(s@),
                None => None,
            },
    )
}

/// Relies on regex's `Regex::new` and `Regex::captures`: the groups captured
/// when the pattern compiles and matches, group 0 being the whole match.
#[verifier::external_body]
fn regex_captures(pattern: &str, text: &str) -> (r: Option<Vec<Option<String>>>)
    ensures
        match r {
            Some(g) => regex_groups(pattern@, text@) == Some(groups_view(g@)),
            None => regex_groups(pattern@, text@) is None,
        },
{
    match regex::Regex::new(pattern) {
        Ok(re) => re.captures(text).map(|c| c.iter().map(|m| m.map(|x| x.as_str().to_string())).collect()),
        Err(_) => None,
    }
}

/// Relies on `str::trim`: removes leading and trailing white space only.
#[verifier::external_body]
fn trim_text(s: &str) -> (r: String)
    ensures
        r@ == trimmed(s@),
{
    s.trim().to_string()
}

/// Relies on `str::starts_with` with a string prefix.
#[verifier::external_body]
fn has_prefix(s: &str, prefix: &str) -> (r: bool)
    ensures
        r == (prefix@.len() <= s@.len() && s@.subrange(0, prefix@.len() as int) == prefix@),
{
    s.starts_with(prefix)
}

/// Value of a string of decimal digits.
pub open spec fn digits_value(s: Seq<char>) -> int
    decreases s.len(),
{
    if s.len() == 0 {
        0
    } else {
        digits_value(s.drop_last()) * 10 + (s.last() as int - '0' as int)
    }
}

/// What `usize`'s `FromStr` accepts: an optional `+` and at least one
/// decimal digit, with a value that fits.
pub open spec fn decimal_usize(s: Seq<char>) -> Option<usize> {
    let d = if s.len() > 0 && s[0] == '+' {
        s.skip(1)
    } else {
        s
    };
    if d.len() > 0 && (forall|i: int| 0 <= i < d.len() ==> '0' <= #[trigger] d[i] <= '9') && digits_value(d)
        <= usize::MAX {
        Some(digits_value(d) as usize)
    } else {
        None
    }
}

/// Relies on `usize`'s `FromStr`, as `str::parse` calls it.
#[verifier::external_body]
fn parse_count(s: &str) -> (r: Option<usize>)
    ensures
        r == decimal_usize(s@),
{
    s.parse::<usize>().ok()
}

pub const KEYWORD_PATTERN: &'static str = r"^([A-Za-z_]+)\s*:\s*(.+)$";

pub const COORD_PATTERN: &'static str = r"^\s*(\d+)\s+(\S+)\s+(\S+)\s*$";

/// The key and raw value of a header line.
pub open spec fn keyword_fields(line: Seq<char>) -> Option<(Seq<char>, Seq<char>)> {
    match regex_groups(KEYWORD_PATTERN@, line) {
        Some(g) => if g.len() >= 3 && g[1] is Some && g[2] is Some {
            Some((g[1]->Some_0, g[2]->Some_0))
        } else {
            None
        },
        None => None,
    }
}

/// The x and y fields of a coordinate line.
pub open spec fn coord_fields(line: Seq<char>) -> Option<(Seq<char>, Seq<char>)> {
    match regex_groups(COORD_PATTERN@, line) {
        Some(g) => if g.len() >= 4 && g[2] is Some && g[3] is Some {
            Some((g[2]->Some_0, g[3]->Some_0))
        } else {
            None
        },
        None => None,
    }
}

pub open spec fn edge_type_of(v: Seq<char>) -> Option<EdgeWeightType> {
    if v == "EXPLICIT"@ {
        Some(EdgeWeightType::Explicit)
    } else if v == "EUC_2D"@ {
        Some(EdgeWeightType::Euc2D)
    } else if v == "CEIL_2D"@ {
        Some(EdgeWeightType::Ceil2D)
    } else if v == "GEO"@ {
        Some(EdgeWeightType::Geo)
    } else if v == "ATT"@ {
        Some(EdgeWeightType::Att)
    } else {
        None
    }
}

/// What has been read so far: the name, the dimension, the edge weight
/// type, the coordinate fields, and whether the coordinate section is open.
pub open spec fn initial_state() -> (Seq<char>, usize, Option<EdgeWeightType>, Seq<(Seq<char>, Seq<char>)>, bool) {
    (Seq::empty(), 0, None, Seq::empty(), false)
}

/// Reads one line; `Err(true)` for a value that does not parse, `Err(false)`
/// for an unsupported edge weight type. Blank and `COMMENT` lines are
/// skipped; inside the coordinate section a line that is not a coordinate
/// line closes the section and is otherwise ignored.
pub open spec fn parse_line(
    st: (Seq<char>, usize, Option<EdgeWeightType>, Seq<(Seq<char>, Seq<char>)>, bool),
    raw: Seq<char>,
) -> Result<(Seq<char>, usize, Option<EdgeWeightType>, Seq<(Seq<char>, Seq<char>)>, bool), bool> {
    let line = trimmed(raw);
    if line.len() == 0 || ("COMMENT"@.len() <= line.len() && line.subrange(0, "COMMENT"@.len() as int)
        == "COMMENT"@) {
        Ok(st)
    } else if line == "NODE_COORD_SECTION"@ {
        Ok((st.0, st.1, st.2, st.3, true))
    } else if st.4 {
        match coord_fields(line) {
            Some(xy) => Ok((st.0, st.1, st.2, st.3.push(xy), true)),
            None => Ok((st.0, st.1, st.2, st.3, false)),
        }
    } else {
        match keyword_fields(line) {
            Some((key, raw_value)) => {
                let value = trimmed(raw_value);
                if key == "NAME"@ {
                    Ok((value, st.1, st.2, st.3, st.4))
                } else if key == "DIMENSION"@ {
                    match decimal_usize(value) {
                        Some(d) => Ok((st.0, d, st.2, st.3, st.4)),
                        None => Err(true),
                    }
                } else if key == "EDGE_WEIGHT_TYPE"@ {
                    match edge_type_of(value) {
                        Some(t) => Ok((st.0, st.1, Some(t), st.3, st.4)),
                        None => Err(false),
                    }
                } else {
                    Ok(st)
                }
            },
            None => Ok(st),
        }
    }
}

pub open spec fn parse_lines(lines: Seq<Seq<char>>) -> Result<
    (Seq<char>, usize, Option<EdgeWeightType>, Seq<(Seq<char>, Seq<char>)>, bool),
    bool,
>
    decreases lines.len(),
{
    if lines.len() == 0 {
        Ok(initial_state())
    } else {
        match parse_lines(lines.drop_last()) {
            Ok(st) => parse_line(st, lines.last()),
            Err(e) => Err(e),
        }
    }
}

/// The whole file: the lines read in order, then the edge weight type must
/// be `EUC_2D` and the number of coordinate lines must be positive and
/// equal the dimension (`Err(false)` otherwise).
pub open spec fn parse_file(lines: Seq<Seq<char>>) -> Result<
    (Seq<char>, usize, Option<EdgeWeightType>, Seq<(Seq<char>, Seq<char>)>, bool),
    bool,
> {
    match parse_lines(lines) {
        Ok(st) => if st.2 != Some(EdgeWeightType::Euc2D) || st.3.len() == 0 || st.3.len() != st.1 {
            Err(false)
        } else {
            Ok(st)
        },
        Err(e) => Err(e),
    }
}

/// An error on some line is the error of the whole file.
pub proof fn lemma_error_persists(lines: Seq<Seq<char>>, k: int)
    requires
        0 <= k <= lines.len(),
        parse_lines(lines.take(k)) is Err,
    ensures
        parse_lines(lines) == parse_lines(lines.take(k)),
    decreases lines.len() - k,
{
    if k < lines.len() {
        assert(lines.take(k + 1).drop_last() =~= lines.take(k));
        lemma_error_persists(lines, k + 1);
    } else {
        assert(lines.take(k) =~= lines);
    }
}

/// The header and coordinate fields of an instance file.
pub struct TsplibData {
    pub name: String,
    pub dimension: usize,
    pub edge_weight_type: EdgeWeightType,
    pub coordinates: Vec<(String, String)>,
}

pub open spec fn coords_view(c: Seq<(String, String)>) -> Seq<(Seq<char>, Seq<char>)> {
    Seq::new(c.len(), |i: int| (c[i].0@, c[i].1@))
}

pub open spec fn lines_view(lines: Seq<String>) -> Seq<Seq<char>> {
    Seq::new(lines.len(), |i: int| lines[i]@)
}

/// Reads the lines of an instance file.
pub fn parse_tsplib(lines: &Vec<String>) -> (r: Result<TsplibData, TsplibError>)
    ensures
        match parse_file(lines_view(lines@)) {
            Ok(st) => r matches Ok(d) && d.name@ == st.0 && d.dimension == st.1 && Some(d.edge_weight_type)
                == st.2 && coords_view(d.coordinates@) == st.3,
            Err(true) => r matches Err(TsplibError::Parse(_)),
            Err(false) => r matches Err(TsplibError::Format(_)),
        },
{
    let ghost lv = lines_view(lines@);
    let section = String::from_str("NODE_COORD_SECTION");
    let key_name = String::from_str("NAME");
    let key_dimension = String::from_str("DIMENSION");
    let key_type = String::from_str("EDGE_WEIGHT_TYPE");
    let mut name = String::new();
    let mut dimension: usize = 0;
    let mut edge_weight_type: Option<EdgeWeightType> = None;
    let mut coordinates: Vec<(String, String)> = Vec::new();
    let mut in_section = false;
    let mut k: usize = 0;
    assert(lv.take(0) =~= Seq::<Seq<char>>::empty());
    assert(coords_view(coordinates@) =~= Seq::<(Seq<char>, Seq<char>)>::empty());
    assert(name@ =~= Seq::<char>::empty());
    while k < lines.len()
        invariant
            lv == lines_view(lines@),
            0 <= k <= lines@.len(),
            section@ == "NODE_COORD_SECTION"@,
            key_name@ == "NAME"@,
            key_dimension@ == "DIMENSION"@,
            key_type@ == "EDGE_WEIGHT_TYPE"@,
            parse_lines(lv.take(k as int)) == Ok::<_, bool>((name@, dimension, edge_weight_type, coords_view(coordinates@), in_section)),
        decreases lines@.len() - k,
    {
        let ghost st = (name@, dimension, edge_weight_type, coords_view(coordinates@), in_section);
        assert(lv.take(k as int + 1).drop_last() =~= lv.take(k as int));
        assert(lv.take(k as int + 1).last() == lines@[k as int]@);
        let line = trim_text(lines[k].as_str());
        if line.as_str().is_empty() || has_prefix(line.as_str(), "COMMENT") {
            k += 1;
            continue;
        }
        if line == section {
            in_section = true;
            k += 1;
            continue;
        }
        if in_section {
            match regex_captures(COORD_PATTERN, line.as_str()) {
                Some(g) => {
                    if g.len() >= 4 && g[2].is_some() && g[3].is_some() {
                        let x = g[2].clone().unwrap();
                        let y = g[3].clone().unwrap();
                        let ghost before = coordinates@;
                        coordinates.push((x, y));
                        assert(coords_view(coordinates@) =~= coords_view(before).push((x@, y@)));
                    } else {
                        in_section = false;
                    }
                },
                None => {
                    in_section = false;
                },
            }
        } else {
            match regex_captures(KEYWORD_PATTERN, line.as_str()) {
                Some(g) => {
                    if g.len() >= 3 && g[1].is_some() && g[2].is_some() {
                        let key = g[1].clone().unwrap();
                        let value = trim_text(g[2].as_ref().unwrap().as_str());
                        if key == key_name {
                            name = value;
                        } else if key == key_dimension {
                            match parse_count(value.as_str()) {
                                Some(d) => {
                                    dimension = d;
                                },
                                None => {
                                    proof {
                                        lemma_error_persists(lv, k as int + 1);
                                    }
                                    return Err(TsplibError::Parse(String::from_str("failed to parse dimension")));
                                },
                            }
                        } else if key == key_type {
                            match edge_type_from(&value) {
                                Some(t) => {
                                    edge_weight_type = Some(t);
                                },
                                None => {
                                    proof {
                                        lemma_error_persists(lv, k as int + 1);
                                    }
                                    return Err(TsplibError::Format(String::from_str("unsupported EDGE_WEIGHT_TYPE")));
                                },
                            }
                        }
                    }
                },
                None => {},
            }
        }
        k += 1;
    }
    assert(lv.take(lines@.len() as int) =~= lv);
    let t = match edge_weight_type {
        Some(t) => t,
        None => {
            return Err(TsplibError::Format(String::from_str("missing EDGE_WEIGHT_TYPE")));
        },
    };
    if t != EdgeWeightType::Euc2D {
        return Err(TsplibError::Format(String::from_str("only EUC_2D is supported")));
    }
    if coordinates.len() == 0 {
        return Err(TsplibError::Format(String::from_str("no coordinates found")));
    }
    if coordinates.len() != dimension {
        return Err(TsplibError::Format(String::from_str("number of coordinates does not match dimension")));
    }
    Ok(TsplibData { name, dimension, edge_weight_type: t, coordinates })
}

fn edge_type_from(v: &String) -> (r: Option<EdgeWeightType>)
    ensures
        r == edge_type_of(v@),
{
    if *v == String::from_str("EXPLICIT") {
        Some(EdgeWeightType::Explicit)
    } else if *v == String::from_str("EUC_2D") {
        Some(EdgeWeightType::Euc2D)
    } else if *v == String::from_str("CEIL_2D") {
        Some(EdgeWeightType::Ceil2D)
    } else if *v == String::from_str("GEO") {
        Some(EdgeWeightType::Geo)
    } else if *v == String::from_str("ATT") {
        Some(EdgeWeightType::Att)
    } else {
        None
    }
}

} // verus!
