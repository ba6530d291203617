//! Parts of the WDL standard library that compute on values: reading a
//! boolean from text, a map as an array of pairs, and the table that
//! `write_object` writes.
use vstd::prelude::*;

use crate::engine::types::{Type, TypeView};
use crate::engine::value::lemma_value_view;
use crate::engine::value::{
    cview, display_of, element_type, entries_view, fields_view, lemma_entries_view,
    lemma_fields_view, pieces_view, text_of, CompoundValue, DisplayPiece, MapValue, Object,
    PieceView, Value, ValueView, Engine,
};
use crate::text::{chars_of, is_ws, spec_trim, string_of, trim};

verus! {

/// `c` with ASCII uppercase letters made lowercase.
pub open spec fn lower_ascii(c: char) -> char {
    if 'A' <= c && c <= 'Z' {
        ((c as u32) + 32) as char
    } else {
        c
    }
}

/// The boolean that the contents of a file written for `read_boolean`
/// hold: the text, with ASCII letters made lowercase and surrounding
/// whitespace removed, must be `true` or `false`.
pub open spec fn boolean_text(s: Seq<char>) -> Option<bool> {
    let t = spec_trim(s.map_values(|c: char| lower_ascii(c)));
    if t == "true"@ {
        Some(true)
    } else if t == "false"@ {
        Some(false)
    } else {
        None
    }
}

/// Reads the boolean that the contents of a file hold, as `read_boolean`
/// does (case-insensitively, ignoring surrounding whitespace); `None` if
/// they hold no single boolean.
pub fn read_boolean_text(contents: &str) -> (r: Option<bool>)
    ensures
        r == boolean_text(contents@),
{
    proof {
        reveal_strlit("true");
        reveal_strlit("false");
    }
    let cs = chars_of(contents);
    let mut lower: Vec<char> = Vec::new();
    let mut i: usize = 0;
    while i < cs.len()
        invariant
            i <= cs@.len(),
            cs@ == contents@,
            lower@ == cs@.take(i as int).map_values(|c: char| lower_ascii(c)),
        decreases cs@.len() - i,
    {
        let c = cs[i];
        let l = if 'A' <= c && c <= 'Z' {
            ((c as u8) + 32) as char
        } else {
            c
        };
        lower.push(l);
        i = i + 1;
        assert(lower@ =~= cs@.take(i as int).map_values(|c: char| lower_ascii(c)));
    }
    assert(cs@.take(i as int) =~= cs@);
    let s = string_of(lower.as_slice());
    let t = trim(s.as_str());
    let tc = chars_of(t.as_str());
    let tv = chars_of("true");
    let fv = chars_of("false");
    if crate::text::chars_eq(tc.as_slice(), tv.as_slice()) {
        Some(true)
    } else if crate::text::chars_eq(tc.as_slice(), fv.as_slice()) {
        Some(false)
    } else {
        None
    }
}

/// Converts a map into an array of pairs, in the map's order: each entry
/// becomes a pair of the array type's element type.
pub fn as_pairs(map: &MapValue, return_type: &Type) -> (v: Value)
    requires
        return_type@ is Array,
    ensures
        cview(CompoundValue::Mapping(*map)) matches ValueView::Mapping(_, es) && v@ == ValueView::Array(
            return_type@,
            es.map_values(
                |e: (ValueView, ValueView)|
                    ValueView::Pair(element_type(return_type@), Box::new(e.0), Box::new(e.1)),
            ),
        ),
{
    let elements = map.elements();
    proof {
        lemma_entries_view(elements@);
    }
    let element_ty = match return_type {
        Type::Compound(ct) => match &ct.definition {
            crate::engine::types::CompoundTypeDef::Array(at) => (*at.element_type).clone(),
            _ => Type::Object,
        },
        _ => Type::Object,
    };
    let ghost es = entries_view(elements@);
    let mut out: Vec<Value> = Vec::new();
    let mut i: usize = 0;
    while i < elements.len()
        invariant
            i <= elements@.len(),
            es == entries_view(elements@),
            es.len() == elements@.len(),
            element_ty@ == element_type(return_type@),
            forall|j: int| 0 <= j < elements@.len() ==> #[trigger] es[j] == (elements@[j].0@, elements@[j].1@),
            out@.len() == i,
            forall|j: int|
                0 <= j < i ==> #[trigger] out@[j]@ == ValueView::Pair(
                    element_type(return_type@),
                    Box::new(es[j].0),
                    Box::new(es[j].1),
                ),
        decreases elements@.len() - i,
    {
        let p = Value::pair_unchecked(element_ty.clone(), elements[i].0.clone(), elements[i].1.clone());
        out.push(p);
        i = i + 1;
    }
    let ghost outs = out@;
    let v = Value::array_unchecked(return_type.clone(), out);
    proof {
        crate::engine::value::lemma_values_view(outs);
        let want = es.map_values(
            |e: (ValueView, ValueView)|
                ValueView::Pair(element_type(return_type@), Box::new(e.0), Box::new(e.1)),
        );
        assert forall|j: int| 0 <= j < outs.len() implies crate::engine::value::values_view(outs)[j] == want[j] by {
            assert(outs[j]@ == ValueView::Pair(element_type(return_type@), Box::new(es[j].0), Box::new(es[j].1)));
        }
        assert(crate::engine::value::values_view(outs) =~= es.map_values(
            |e: (ValueView, ValueView)|
                ValueView::Pair(element_type(return_type@), Box::new(e.0), Box::new(e.1)),
        ));
    }
    v
}

/// Why `write_object` refuses an object.
#[derive(Debug, Clone)]
pub enum WriteObjectError {
    /// The named member holds text with a tab character.
    TabCharacter(String),
    /// The named member is not a primitive value.
    NotPrimitive(String),
}

/// The mathematical form of a [`WriteObjectError`].
pub enum TableError {
    /// The named member holds text with a tab character.
    TabCharacter(Seq<char>),
    /// The named member is not a primitive value.
    NotPrimitive(Seq<char>),
}

/// The cell of a member in the table: nothing for `None`, the text of a
/// primitive value, refused for text with a tab or a compound value.
pub open spec fn table_cell(name: Seq<char>, v: ValueView) -> Result<Seq<PieceView>, TableError> {
    match v {
        ValueView::NoneValue => Ok(Seq::empty()),
        ValueView::Boolean(_) => Ok(display_of(v)),
        ValueView::Integer(_) => Ok(display_of(v)),
        ValueView::Float(_) => Ok(display_of(v)),
        ValueView::String(t) => if t.contains('\t') {
            Err(TableError::TabCharacter(name))
        } else {
            Ok(seq![PieceView::Text(t)])
        },
        ValueView::File(t) => if t.contains('\t') {
            Err(TableError::TabCharacter(name))
        } else {
            Ok(seq![PieceView::Text(t)])
        },
        ValueView::Directory(t) => if t.contains('\t') {
            Err(TableError::TabCharacter(name))
        } else {
            Ok(seq![PieceView::Text(t)])
        },
        _ => Err(TableError::NotPrimitive(name)),
    }
}

/// The names of the members, separated by tabs.
pub open spec fn table_header(ms: Seq<(Seq<char>, ValueView)>) -> Seq<PieceView>
    decreases ms.len(),
{
    if ms.len() == 0 {
        Seq::empty()
    } else {
        table_header(ms.drop_last()) + (if ms.len() > 1 {
            seq![PieceView::Text("\t"@)]
        } else {
            Seq::empty()
        }) + seq![PieceView::Text(ms.last().0)]
    }
}

/// The cells of the members, separated by tabs; the first refused member
/// refuses the row.
pub open spec fn table_row(ms: Seq<(Seq<char>, ValueView)>) -> Result<Seq<PieceView>, TableError>
    decreases ms.len(),
{
    if ms.len() == 0 {
        Ok(Seq::empty())
    } else {
        match table_row(ms.drop_last()) {
            Err(e) => Err(e),
            Ok(prev) => match table_cell(ms.last().0, ms.last().1) {
                Err(e) => Err(e),
                Ok(c) => Ok(prev + (if ms.len() > 1 {
                    seq![PieceView::Text("\t"@)]
                } else {
                    Seq::empty()
                }) + c),
            },
        }
    }
}

/// What `write_object` writes for an object with members `ms`: nothing for
/// no members, otherwise a line of names and a line of values.
pub open spec fn object_table(ms: Seq<(Seq<char>, ValueView)>) -> Result<Seq<PieceView>, TableError> {
    if ms.len() == 0 {
        Ok(Seq::empty())
    } else {
        match table_row(ms) {
            Err(e) => Err(e),
            Ok(row) => Ok(table_header(ms) + seq![PieceView::Text("\n"@)] + row + seq![
                PieceView::Text("\n"@),
            ]),
        }
    }
}

/// Whether `t` holds a tab.
fn has_tab(t: &str) -> (b: bool)
    ensures
        b == t@.contains('\t'),
{
    let cs = chars_of(t);
    let mut i: usize = 0;
    while i < cs.len()
        invariant
            i <= cs@.len(),
            cs@ == t@,
            forall|j: int| 0 <= j < i ==> cs@[j] != '\t',
        decreases cs@.len() - i,
    {
        if cs[i] == '\t' {
            return true;
        }
        i = i + 1;
    }
    false
}

/// Appends a piece.
fn push_piece(out: &mut Vec<DisplayPiece>, p: DisplayPiece)
    ensures
        pieces_view(final(out)@) == pieces_view(old(out)@) + seq![p@],
{
    let ghost pv = p@;
    out.push(p);
    assert(pieces_view(out@) =~= pieces_view(old(out)@) + seq![pv]);
}

/// The table that `write_object` writes for an object: a line of member
/// names and a line of their values, tab-separated.
pub fn write_object_table(object: &Object) -> (r: Result<Vec<DisplayPiece>, WriteObjectError>)
    ensures
        cview(CompoundValue::Object(*object)) matches ValueView::Object(ms) && match object_table(ms) {
            Ok(t) => r matches Ok(ps) && pieces_view(ps@) == t,
            Err(TableError::TabCharacter(n)) => r matches Err(WriteObjectError::TabCharacter(m)) && m@ == n,
            Err(TableError::NotPrimitive(n)) => r matches Err(WriteObjectError::NotPrimitive(m)) && m@ == n,
        },
{
    proof {
        reveal_strlit("\t");
        reveal_strlit("\n");
    }
    let members = object.members();
    proof {
        lemma_fields_view(members@);
    }
    let ghost ms = fields_view(members@);
    if members.len() == 0 {
        assert(pieces_view(Seq::<DisplayPiece>::empty()) =~= Seq::<PieceView>::empty());
        return Ok(Vec::new());
    }
    let mut header: Vec<DisplayPiece> = Vec::new();
    let mut row: Vec<DisplayPiece> = Vec::new();
    let mut i: usize = 0;
    assert(ms.take(0) =~= Seq::<(Seq<char>, ValueView)>::empty());
    assert(pieces_view(row@) =~= Seq::<PieceView>::empty());
    assert(pieces_view(header@) =~= Seq::<PieceView>::empty());
    while i < members.len()
        invariant
            i <= members@.len(),
            ms == fields_view(members@),
            ms.len() == members@.len(),
            cview(CompoundValue::Object(*object)) == ValueView::Object(ms),
            forall|j: int| 0 <= j < members@.len() ==> #[trigger] ms[j] == (members@[j].0@, members@[j].1@),
            pieces_view(header@) == table_header(ms.take(i as int)),
            table_row(ms.take(i as int)) == Ok::<Seq<PieceView>, TableError>(pieces_view(row@)),
        decreases members@.len() - i,
    {
        assert(ms.take(i + 1).drop_last() =~= ms.take(i as int));
        assert(ms.take(i + 1).last() == ms[i as int]);
        let name = &members[i].0;
        let value = &members[i].1;
        proof {
            crate::engine::value::lemma_value_view(*value);
        }
        let ghost row_before = row@;
        if i > 0 {
            push_piece(&mut header, DisplayPiece::Text("\t".to_owned()));
            push_piece(&mut row, DisplayPiece::Text("\t".to_owned()));
        }
        let ghost row_sep = row@;
        push_piece(&mut header, DisplayPiece::Text(name.clone()));
        match value {
            Value::NoneValue => {},
            Value::Boolean(_) | Value::Integer(_) | Value::Float(_) => {
                let mut cell = value.display();
                proof {
                    assert(pieces_view(row@ + cell@) =~= pieces_view(row@) + pieces_view(cell@));
                }
                row.append(&mut cell);
            },
            Value::String(t) | Value::File(t) | Value::Directory(t) => {
                if has_tab(t.as_str()) {
                    proof {
                        assert(table_cell(ms[i as int].0, ms[i as int].1) == Err::<Seq<PieceView>, TableError>(
                            TableError::TabCharacter(name@),
                        ));
                        assert(table_row(ms.take(i + 1)) == Err::<Seq<PieceView>, TableError>(
                            TableError::TabCharacter(name@),
                        ));
                        table_row_err_extends(ms, i as int + 1);
                    }
                    return Err(WriteObjectError::TabCharacter(name.clone()));
                }
                push_piece(&mut row, DisplayPiece::Text(t.clone()));
            },
            Value::Compound(_) => {
                proof {
                    assert(table_cell(ms[i as int].0, ms[i as int].1) == Err::<Seq<PieceView>, TableError>(
                        TableError::NotPrimitive(name@),
                    ));
                    assert(table_row(ms.take(i + 1)) == Err::<Seq<PieceView>, TableError>(
                        TableError::NotPrimitive(name@),
                    ));
                    table_row_err_extends(ms, i as int + 1);
                }
                return Err(WriteObjectError::NotPrimitive(name.clone()));
            },
        }
        i = i + 1;
        assert(pieces_view(header@) =~= table_header(ms.take(i as int)));
        assert(pieces_view(row@) =~= pieces_view(row_before) + (if i > 1 {
            seq![PieceView::Text("\t"@)]
        } else {
            Seq::empty()
        }) + table_cell(ms[i - 1].0, ms[i - 1].1)->Ok_0);
    }
    assert(ms.take(i as int) =~= ms);
    let mut out = header;
    push_piece(&mut out, DisplayPiece::Text("\n".to_owned()));
    let ghost before_row = out@;
    proof {
        assert(pieces_view(out@ + row@) =~= pieces_view(out@) + pieces_view(row@));
    }
    out.append(&mut row);
    push_piece(&mut out, DisplayPiece::Text("\n".to_owned()));
    Ok(out)
}

/// Once a member is refused, the row is refused with the first refusal.
proof fn table_row_err_extends(ms: Seq<(Seq<char>, ValueView)>, k: int)
    requires
        0 < k <= ms.len(),
        table_row(ms.take(k)) is Err,
    ensures
        table_row(ms) == table_row(ms.take(k)),
    decreases ms.len() - k,
{
    if k < ms.len() {
        assert(ms.take(k + 1).drop_last() =~= ms.take(k));
        table_row_err_extends(ms, k + 1);
    } else {
        assert(ms.take(k) =~= ms);
    }
}

} // verus!
