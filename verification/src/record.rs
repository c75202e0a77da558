//! The two record shapes and the conversion between them.

use vstd::prelude::*;
use vstd::string::StringExecFns;

verus! {

/// A raw row as decoded from the tabular input.  The `active` field is still
/// a free-form token; nothing has been validated yet.
#[derive(Debug)]
pub struct CsvFood {
    pub name: String,
    pub quantity: u32,
    pub category: String,
    pub active: String,
}

/// A validated record: `active` has been mapped through the fixed vocabulary
/// and is a definite boolean.
#[derive(Debug, PartialEq)]
pub struct Food {
    pub name: String,
    pub quantity: u32,
    pub category: String,
    pub active: bool,
}

/// The spec-level image of a raw row: each text field abstracted to its
/// character sequence.
pub struct RawRowV {
    pub name: Seq<char>,
    pub quantity: u32,
    pub category: Seq<char>,
    pub active: Seq<char>,
}

impl View for CsvFood {
    type V = RawRowV;

    open spec fn view(&self) -> RawRowV {
        RawRowV {
            name: self.name@,
            quantity: self.quantity,
            category: self.category@,
            active: self.active@,
        }
    }
}

impl DeepView for CsvFood {
    type V = RawRowV;

    open spec fn deep_view(&self) -> RawRowV {
        self.view()
    }
}

/// The fixed, case-sensitive vocabulary for the `active` token: `"yeah"` and
/// `"TRUE"` mean active, `"NO"` and `"FALSE"` mean inactive, and every other
/// token is invalid.
pub open spec fn active_token_value(tok: Seq<char>) -> Option<bool> {
    if tok == "yeah"@ || tok == "TRUE"@ {
        Some(true)
    } else if tok == "NO"@ || tok == "FALSE"@ {
        Some(false)
    } else {
        None
    }
}

/// The message reported for a row whose `active` token is outside the
/// vocabulary; it quotes the offending token verbatim.
pub open spec fn invalid_active_message(tok: Seq<char>) -> Seq<char> {
    "invalid value found in `active`: `"@ + tok + "`"@
}

/// The record that a raw row becomes when its `active` token maps to `b`:
/// the other three fields are carried over unchanged.
pub open spec fn food_of(row: CsvFood, b: bool) -> Food {
    Food { name: row.name, quantity: row.quantity, category: row.category, active: b }
}

impl Food {
    /// Converts a raw row into a validated record.  `name`, `quantity` and
    /// `category` are copied unchanged; `active` is mapped through the
    /// vocabulary, and a row with an unrecognized token is rejected with a
    /// message naming that token.
    pub fn try_from(csv: CsvFood) -> (r: Result<Food, String>)
        ensures
            (match active_token_value(csv.active@) {
                Some(b) => r matches Ok(f) && f == food_of(csv, b),
                None => r matches Err(m) && m@ == invalid_active_message(csv.active@),
            }),
    {
        let CsvFood { name, quantity, category, active } = csv;
        if active == "yeah".to_owned() || active == "TRUE".to_owned() {
            Ok(Food { name, quantity, category, active: true })
        } else if active == "NO".to_owned() || active == "FALSE".to_owned() {
            Ok(Food { name, quantity, category, active: false })
        } else {
            let mut m = "invalid value found in `active`: `".to_owned();
            m.append(active.as_str());
            m.append("`");
            Err(m)
        }
    }
}

} // verus!
