//! Sparse patches: the named fields to change on one entity, each with the
//! value a client sent. Fields that an entity does not know are ignored.

use vstd::prelude::*;
use crate::access::admitted;
use crate::color::{is_valid_color, validate_color};
use crate::model::BoardBackground;

verus! {

/// A value sent for one field, by its type.
#[derive(Debug, Clone)]
pub enum PatchValue {
    /// A string.
    Text(String),
    /// A boolean.
    Flag(bool),
    /// A list of user ids.
    Ids(Vec<i64>),
    /// A board background.
    Background(BoardBackground),
    /// Anything else.
    Other,
}

/// The fields a patch may name. A field left out is `None`.
#[derive(Debug, Clone)]
pub struct Patch {
    pub title: Option<PatchValue>,
    pub background: Option<PatchValue>,
    pub background_color: Option<PatchValue>,
    pub header_text_color: Option<PatchValue>,
    pub header_background_color: Option<PatchValue>,
    pub text_color: Option<PatchValue>,
    pub executors: Option<PatchValue>,
    pub completed: Option<PatchValue>,
    pub notes: Option<PatchValue>,
}

/// Absent, or a string.
pub open spec fn text_ok(p: Option<PatchValue>) -> bool {
    match p {
        None => true,
        Some(PatchValue::Text(_)) => true,
        Some(_) => false,
    }
}

/// Absent, or a string that is not empty.
pub open spec fn title_ok(p: Option<PatchValue>) -> bool {
    match p {
        None => true,
        Some(PatchValue::Text(s)) => s@.len() > 0,
        Some(_) => false,
    }
}

/// Absent, or a well-formed color.
pub open spec fn color_ok(p: Option<PatchValue>) -> bool {
    match p {
        None => true,
        Some(PatchValue::Text(s)) => is_valid_color(s@),
        Some(_) => false,
    }
}

/// Absent, or a boolean.
pub open spec fn flag_ok(p: Option<PatchValue>) -> bool {
    match p {
        None => true,
        Some(PatchValue::Flag(_)) => true,
        Some(_) => false,
    }
}

/// Absent, or a list of user ids.
pub open spec fn ids_ok(p: Option<PatchValue>) -> bool {
    match p {
        None => true,
        Some(PatchValue::Ids(_)) => true,
        Some(_) => false,
    }
}

/// A background whose color, if it is one, is well formed.
pub open spec fn background_valid(b: BoardBackground) -> bool {
    match b {
        BoardBackground::Color { color } => is_valid_color(color@),
        BoardBackground::URL { .. } => true,
    }
}

/// Absent, or a valid background.
pub open spec fn background_ok(p: Option<PatchValue>) -> bool {
    match p {
        None => true,
        Some(PatchValue::Background(b)) => background_valid(b),
        Some(_) => false,
    }
}

/// The string a field holds after the patch.
pub open spec fn text_after(old: String, p: Option<PatchValue>) -> String {
    match p {
        Some(PatchValue::Text(s)) => s,
        _ => old,
    }
}

/// The flag a field holds after the patch.
pub open spec fn flag_after(old: bool, p: Option<PatchValue>) -> bool {
    match p {
        Some(PatchValue::Flag(b)) => b,
        _ => old,
    }
}

/// The executors after the patch: the sent ids that are members, in order.
pub open spec fn executors_after(old: Seq<i64>, p: Option<PatchValue>, shared: Seq<i64>) -> Seq<
    i64,
> {
    match p {
        Some(PatchValue::Ids(v)) => admitted(v@, shared),
        _ => old,
    }
}

/// The background after the patch.
pub open spec fn background_after(old: BoardBackground, p: Option<PatchValue>) -> BoardBackground {
    match p {
        Some(PatchValue::Background(b)) => b,
        _ => old,
    }
}

/// Checks that a field is absent or a string.
pub fn check_text(p: &Option<PatchValue>) -> (r: bool)
    ensures
        r == text_ok(*p),
{
    match p {
        None => true,
        Some(PatchValue::Text(_)) => true,
        Some(_) => false,
    }
}

/// Checks that a field is absent or a string that is not empty.
pub fn check_title(p: &Option<PatchValue>) -> (r: bool)
    ensures
        r == title_ok(*p),
{
    match p {
        None => true,
        Some(PatchValue::Text(s)) => !s.as_str().is_empty(),
        Some(_) => false,
    }
}

/// Checks that a field is absent or a well-formed color.
pub fn check_color(p: &Option<PatchValue>) -> (r: bool)
    ensures
        r == color_ok(*p),
{
    match p {
        None => true,
        Some(PatchValue::Text(s)) => validate_color(s.as_str()).is_ok(),
        Some(_) => false,
    }
}

/// Checks that a field is absent or a boolean.
pub fn check_flag(p: &Option<PatchValue>) -> (r: bool)
    ensures
        r == flag_ok(*p),
{
    match p {
        None => true,
        Some(PatchValue::Flag(_)) => true,
        Some(_) => false,
    }
}

/// Checks that a field is absent or a list of user ids.
pub fn check_ids(p: &Option<PatchValue>) -> (r: bool)
    ensures
        r == ids_ok(*p),
{
    match p {
        None => true,
        Some(PatchValue::Ids(_)) => true,
        Some(_) => false,
    }
}

/// Checks that a background's color, if it is one, is well formed.
pub fn check_background_value(b: &BoardBackground) -> (r: bool)
    ensures
        r == background_valid(*b),
{
    match b {
        BoardBackground::Color { color } => validate_color(color.as_str()).is_ok(),
        BoardBackground::URL { .. } => true,
    }
}

/// Checks that a field is absent or a valid background.
pub fn check_background(p: &Option<PatchValue>) -> (r: bool)
    ensures
        r == background_ok(*p),
{
    match p {
        None => true,
        Some(PatchValue::Background(b)) => check_background_value(b),
        Some(_) => false,
    }
}

/// A copy of a background.
pub fn copy_background(b: &BoardBackground) -> (r: BoardBackground)
    ensures
        r == *b,
{
    match b {
        BoardBackground::Color { color } => BoardBackground::Color { color: color.clone() },
        BoardBackground::URL { url } => BoardBackground::URL { url: url.clone() },
    }
}

/// Writes the patched string of a field into `target`, if the field holds one.
pub fn apply_text(target: &mut String, p: &Option<PatchValue>)
    ensures
        *final(target) == text_after(*old(target), *p),
{
    match p {
        Some(PatchValue::Text(s)) => {
            *target = s.clone();
        },
        _ => {},
    }
}

/// Writes the patched flag of a field into `target`, if the field holds one.
pub fn apply_flag(target: &mut bool, p: &Option<PatchValue>)
    ensures
        *final(target) == flag_after(*old(target), *p),
{
    match p {
        Some(PatchValue::Flag(b)) => {
            *target = *b;
        },
        _ => {},
    }
}

/// Writes the sent executors that are members into `target`, if the field holds a list.
pub fn apply_executors(target: &mut Vec<i64>, p: &Option<PatchValue>, shared_with: &Vec<i64>)
    ensures
        final(target)@ == executors_after(old(target)@, *p, shared_with@),
{
    match p {
        Some(PatchValue::Ids(v)) => {
            *target = crate::access::filter_executors(v, shared_with);
        },
        _ => {},
    }
}

} // verus!
