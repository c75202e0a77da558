//! The row loader: decoding a comma-separated document into raw rows.
//!
//! The tabular syntax itself (quoting, escaping, line splitting) is handled
//! by an external decoding collaborator behind a single trusted wrapper; the
//! header resolution, the quantity grammar and the assembly of raw rows are
//! verified here.

use vstd::prelude::*;
use crate::record::CsvFood;

verus! {

/// Whether `c` is a decimal digit.
pub open spec fn dec_digit(c: char) -> bool {
    ('0' as u32) <= (c as u32) && (c as u32) <= ('9' as u32)
}

/// Whether `c` is a hexadecimal digit (either case).
pub open spec fn hex_digit(c: char) -> bool {
    dec_digit(c) || (('a' as u32) <= (c as u32) && (c as u32) <= ('f' as u32)) || (('A' as u32)
        <= (c as u32) && (c as u32) <= ('F' as u32))
}

/// The numeric value of a hexadecimal digit; decimal digits are a special
/// case, so this also serves the decimal grammar.
pub open spec fn digit_value(c: char) -> int {
    if dec_digit(c) {
        c as u32 - '0' as u32
    } else if ('a' as u32) <= (c as u32) && (c as u32) <= ('f' as u32) {
        c as u32 - 'a' as u32 + 10
    } else {
        c as u32 - 'A' as u32 + 10
    }
}

/// Whether `c` is a digit in base `radix` (10 or 16).
pub open spec fn digit_in(c: char, radix: int) -> bool {
    if radix == 16 {
        hex_digit(c)
    } else {
        dec_digit(c)
    }
}

/// Whether every character of `s` is a digit in base `radix` (10 or 16).
pub open spec fn all_digits(s: Seq<char>, radix: int) -> bool {
    forall|i: int| 0 <= i < s.len() ==> digit_in(#[trigger] s[i], radix)
}

/// The value of a digit string read in base `radix`, most significant digit
/// first.
pub open spec fn digits_value(s: Seq<char>, radix: int) -> int
    decreases s.len(),
{
    if s.len() == 0 {
        0
    } else {
        digits_value(s.drop_last(), radix) * radix + digit_value(s.last())
    }
}

/// A digit string with a digit appended cannot get smaller.
proof fn lemma_digits_value_grows(s: Seq<char>, radix: int)
    requires
        radix == 10 || radix == 16,
        s.len() > 0,
        all_digits(s, radix),
    ensures
        digits_value(s, radix) >= digits_value(s.drop_last(), radix),
        digit_value(s.last()) >= 0,
        digits_value(s, radix) >= 0,
{
    let p = digits_value(s.drop_last(), radix);
    assert(all_digits(s.drop_last(), radix)) by {
        assert(forall|i: int|
            0 <= i < s.len() - 1 ==> #[trigger] s.drop_last()[i] == s[i]);
    }
    lemma_digits_value_nonneg(s.drop_last(), radix);
    assert(p * radix >= p) by (nonlinear_arith)
        requires
            p >= 0,
            radix >= 1,
    ;
}

/// A digit string never reads as a negative value.
proof fn lemma_digits_value_nonneg(s: Seq<char>, radix: int)
    requires
        radix == 10 || radix == 16,
        all_digits(s, radix),
    ensures
        digits_value(s, radix) >= 0,
    decreases s.len(),
{
    if s.len() > 0 {
        let p = digits_value(s.drop_last(), radix);
        assert(all_digits(s.drop_last(), radix)) by {
            assert(forall|i: int|
                0 <= i < s.len() - 1 ==> #[trigger] s.drop_last()[i] == s[i]);
        }
        lemma_digits_value_nonneg(s.drop_last(), radix);
        assert(p * radix >= p) by (nonlinear_arith)
            requires
                p >= 0,
                radix >= 1,
        ;
    }
}

/// `s` with one leading `'+'` removed, if there is one.
pub open spec fn strip_plus(s: Seq<char>) -> Seq<char> {
    if s.len() > 0 && s[0] == '+' {
        s.skip(1)
    } else {
        s
    }
}

/// The digits of a quantity token after the sign, read in the base it
/// selects: a token starting with `0x` is read as hexadecimal (the `0x` is
/// dropped, then an optional `+`), anything else as decimal (an optional `+`
/// first).
pub open spec fn quantity_digits(tok: Seq<char>) -> Seq<char> {
    if tok.len() >= 2 && tok[0] == '0' && tok[1] == 'x' {
        strip_plus(tok.skip(2))
    } else {
        strip_plus(tok)
    }
}

/// The base a quantity token is read in.
pub open spec fn quantity_radix(tok: Seq<char>) -> int {
    if tok.len() >= 2 && tok[0] == '0' && tok[1] == 'x' {
        16
    } else {
        10
    }
}

/// The value of a quantity token: the digits after the optional `0x` and
/// optional `+` must be non-empty, all in the selected base, and read to a
/// value that fits in 32 bits; any other token has no value.
pub open spec fn quantity_value(tok: Seq<char>) -> Option<u32> {
    let d = quantity_digits(tok);
    let radix = quantity_radix(tok);
    if d.len() > 0 && all_digits(d, radix) && digits_value(d, radix) <= u32::MAX {
        Some(digits_value(d, radix) as u32)
    } else {
        None
    }
}

/// Classifies one character as a digit in base `radix`, returning its value.
fn digit_of(c: char, radix: u32) -> (r: Option<u32>)
    requires
        radix == 10 || radix == 16,
    ensures
        (match r {
            Some(v) => digit_in(c, radix as int) && v == digit_value(c),
            None => !digit_in(c, radix as int),
        }),
{
    let cu = c as u32;
    if ('0' as u32) <= cu && cu <= ('9' as u32) {
        Some(cu - ('0' as u32))
    } else if radix == 16 && ('a' as u32) <= cu && cu <= ('f' as u32) {
        Some(cu - ('a' as u32) + 10)
    } else if radix == 16 && ('A' as u32) <= cu && cu <= ('F' as u32) {
        Some(cu - ('A' as u32) + 10)
    } else {
        None
    }
}

/// Parses a quantity token into a 32-bit value, reading exactly the grammar
/// of `quantity_value`.
pub fn parse_quantity(tok: &str) -> (r: Option<u32>)
    ensures
        r == quantity_value(tok@),
{
    let n = tok.unicode_len();
    let hex = n >= 2 && tok.get_char(0) == '0' && tok.get_char(1) == 'x';
    let radix: u32 = if hex {
        16
    } else {
        10
    };
    let base: usize = if hex {
        2
    } else {
        0
    };
    proof {
        assert(radix as int == quantity_radix(tok@));
    }
    let start: usize = if base < n && tok.get_char(base) == '+' {
        base + 1
    } else {
        base
    };
    let ghost d = tok@.skip(start as int);
    proof {
        let s = tok@.skip(base as int);
        assert(s.len() == n - base);
        if s.len() > 0 {
            assert(s[0] == tok@[base as int]);
        }
        if start != base {
            assert(tok@.skip(base as int).skip(1) =~= tok@.skip(start as int));
        }
        assert(d == quantity_digits(tok@));
    }
    if start == n {
        return None;
    }
    let mut i: usize = start;
    let mut val: u64 = 0;
    let mut over = false;
    proof {
        assert(d.take(0) =~= Seq::<char>::empty());
    }
    while i < n
        invariant
            start <= i <= n,
            n == tok@.len(),
            start < n,
            radix == 10 || radix == 16,
            radix as int == quantity_radix(tok@),
            d == quantity_digits(tok@),
            d == tok@.skip(start as int),
            d.len() == n - start,
            all_digits(d.take(i - start), radix as int),
            !over ==> val == digits_value(d.take(i - start), radix as int) && val <= u32::MAX
                as u64,
            over ==> digits_value(d.take(i - start), radix as int) > u32::MAX,
        decreases n - i,
    {
        let c = tok.get_char(i);
        proof {
            assert(d[i - start] == tok@[i as int]);
        }
        match digit_of(c, radix) {
            None => {
                assert(!all_digits(d, radix as int));
                return None;
            },
            Some(v) => {
                proof {
                    assert(d.take(i - start + 1).drop_last() =~= d.take(i - start));
                    assert(d.take(i - start + 1).last() == d[i - start]);
                }
                if over {
                    proof {
                        lemma_digits_value_grows(d.take(i - start + 1), radix as int);
                    }
                } else {
                    proof {
                        assert(val * (radix as u64) <= 0xffff_ffffu64 * 16) by (nonlinear_arith)
                            requires
                                val <= 0xffff_ffffu64,
                                radix <= 16,
                        ;
                    }
                    let next = val * (radix as u64) + (v as u64);
                    if next > u32::MAX as u64 {
                        over = true;
                    } else {
                        val = next;
                    }
                }
                i = i + 1;
            },
        }
    }
    proof {
        assert(d.take(i - start) =~= d);
    }
    if over {
        None
    } else {
        Some(val as u32)
    }
}

/// How often `name` occurs among the header cells.
pub open spec fn count_matches(h: Seq<Seq<char>>, name: Seq<char>) -> int
    decreases h.len(),
{
    if h.len() == 0 {
        0
    } else {
        count_matches(h.drop_last(), name) + if h.last() == name {
            1int
        } else {
            0int
        }
    }
}

/// The least index whose header cell is `name`, or `h.len()` if there is
/// none.
pub open spec fn first_match(h: Seq<Seq<char>>, name: Seq<char>) -> int
    decreases h.len(),
{
    if h.len() == 0 {
        0
    } else {
        let p = first_match(h.drop_last(), name);
        if p < h.len() - 1 {
            p
        } else if h.last() == name {
            h.len() - 1
        } else {
            h.len() as int
        }
    }
}

/// Counts the header cells equal to `target` and finds the first one.
fn scan_header(header: &Vec<String>, target: &str) -> (r: (usize, usize))
    ensures
        r.0 == count_matches(header.deep_view(), target@),
        r.1 == first_match(header.deep_view(), target@),
{
    let ghost hd = header.deep_view();
    let t = target.to_owned();
    let mut cnt: usize = 0;
    let mut first: usize = 0;
    let mut i: usize = 0;
    proof {
        assert(hd.take(0) =~= Seq::<Seq<char>>::empty());
    }
    while i < header.len()
        invariant
            i <= header@.len(),
            hd == header.deep_view(),
            hd.len() == header@.len(),
            t@ == target@,
            cnt <= i,
            first <= i,
            cnt == count_matches(hd.take(i as int), target@),
            cnt > 0 ==> first < i,
            cnt > 0 ==> first == first_match(hd.take(i as int), target@),
            cnt == 0 ==> first_match(hd.take(i as int), target@) == i,
        decreases header@.len() - i,
    {
        proof {
            assert(hd.take(i + 1).drop_last() =~= hd.take(i as int));
            assert(hd.take(i + 1).last() == hd[i as int]);
        }
        if header[i] == t {
            if cnt == 0 {
                first = i;
            }
            cnt = cnt + 1;
        }
        i = i + 1;
    }
    proof {
        assert(hd.take(i as int) =~= hd);
    }
    if cnt == 0 {
        (cnt, header.len())
    } else {
        (cnt, first)
    }
}

/// A fatal failure of the load step: the whole load is abandoned when any of
/// these occurs.
#[derive(Debug)]
pub enum LoadError {
    /// The tabular decoder itself rejected the document; the message is the
    /// decoder's own.
    Tabular(String),
    /// A required column name does not appear in the header.
    MissingColumn(String),
    /// A required column name appears more than once in the header.
    DuplicateColumn(String),
    /// A row has no cell under a required column.
    RowTooShort,
    /// A `quantity` cell does not read as a 32-bit unsigned integer; the
    /// offending cell is carried verbatim.
    BadQuantity(String),
}

/// The spec-level image of a load failure.
pub enum LoadIssue {
    Tabular(Seq<char>),
    MissingColumn(Seq<char>),
    DuplicateColumn(Seq<char>),
    RowTooShort,
    BadQuantity(Seq<char>),
}

impl View for LoadError {
    type V = LoadIssue;

    open spec fn view(&self) -> LoadIssue {
        match self {
            LoadError::Tabular(m) => LoadIssue::Tabular(m@),
            LoadError::MissingColumn(n) => LoadIssue::MissingColumn(n@),
            LoadError::DuplicateColumn(n) => LoadIssue::DuplicateColumn(n@),
            LoadError::RowTooShort => LoadIssue::RowTooShort,
            LoadError::BadQuantity(t) => LoadIssue::BadQuantity(t@),
        }
    }
}

/// The first problem with the header, if any: each of the four required
/// column names, in declaration order, must occur exactly once.
pub open spec fn header_issue(h: Seq<Seq<char>>) -> Option<LoadIssue> {
    if count_matches(h, "name"@) == 0 {
        Some(LoadIssue::MissingColumn("name"@))
    } else if count_matches(h, "name"@) != 1 {
        Some(LoadIssue::DuplicateColumn("name"@))
    } else if count_matches(h, "quantity"@) == 0 {
        Some(LoadIssue::MissingColumn("quantity"@))
    } else if count_matches(h, "quantity"@) != 1 {
        Some(LoadIssue::DuplicateColumn("quantity"@))
    } else if count_matches(h, "category"@) == 0 {
        Some(LoadIssue::MissingColumn("category"@))
    } else if count_matches(h, "category"@) != 1 {
        Some(LoadIssue::DuplicateColumn("category"@))
    } else if count_matches(h, "active"@) == 0 {
        Some(LoadIssue::MissingColumn("active"@))
    } else if count_matches(h, "active"@) != 1 {
        Some(LoadIssue::DuplicateColumn("active"@))
    } else {
        None
    }
}

/// The first problem with one body row under header `h`, if any: every
/// required column must have a cell, and the `quantity` cell must read as a
/// 32-bit unsigned integer.
pub open spec fn row_issue(h: Seq<Seq<char>>, row: Seq<Seq<char>>) -> Option<LoadIssue> {
    if first_match(h, "name"@) >= row.len() || first_match(h, "quantity"@) >= row.len()
        || first_match(h, "category"@) >= row.len() || first_match(h, "active"@) >= row.len() {
        Some(LoadIssue::RowTooShort)
    } else if quantity_value(row[first_match(h, "quantity"@)]) is None {
        Some(LoadIssue::BadQuantity(row[first_match(h, "quantity"@)]))
    } else {
        None
    }
}

/// The raw row a well-formed body row reads as: each field taken from the
/// cell under the like-named column.
pub open spec fn row_value(h: Seq<Seq<char>>, row: Seq<Seq<char>>) -> crate::record::RawRowV {
    crate::record::RawRowV {
        name: row[first_match(h, "name"@)],
        quantity: quantity_value(row[first_match(h, "quantity"@)])->0,
        category: row[first_match(h, "category"@)],
        active: row[first_match(h, "active"@)],
    }
}

/// The index of the first body row with a problem, or `body.len()` if every
/// row is well formed.
pub open spec fn first_bad_row(h: Seq<Seq<char>>, body: Seq<Seq<Seq<char>>>) -> int
    decreases body.len(),
{
    if body.len() == 0 {
        0
    } else if row_issue(h, body[0]) is Some {
        0
    } else {
        1 + first_bad_row(h, body.skip(1))
    }
}

/// The raw rows a fully well-formed table reads as.
pub open spec fn table_rows(h: Seq<Seq<char>>, body: Seq<Seq<Seq<char>>>) -> Seq<
    crate::record::RawRowV,
> {
    body.map_values(|row: Seq<Seq<char>>| row_value(h, row))
}

/// What loading a decoded table must produce: an empty body always loads as
/// the empty row list; otherwise the first header problem, else the problem
/// of the first bad row, is reported, and a table without problems reads as
/// its rows.
pub open spec fn load_outcome_matches(
    h: Seq<Seq<char>>,
    body: Seq<Seq<Seq<char>>>,
    r: Result<Vec<CsvFood>, LoadError>,
) -> bool {
    if body.len() == 0 {
        r matches Ok(v) && v@.len() == 0
    } else if header_issue(h) is Some {
        r matches Err(e) && Some(e@) == header_issue(h)
    } else if first_bad_row(h, body) < body.len() {
        r matches Err(e) && Some(e@) == row_issue(h, body[first_bad_row(h, body)])
    } else {
        r matches Ok(v) && v.deep_view() == table_rows(h, body)
    }
}

/// Pins `first_bad_row` down: it is the index below which every row is well
/// formed and at which (if still inside the body) a problem sits.
proof fn lemma_first_bad_row_at(h: Seq<Seq<char>>, body: Seq<Seq<Seq<char>>>, i: int)
    requires
        0 <= i <= body.len(),
        forall|j: int| 0 <= j < i ==> row_issue(h, #[trigger] body[j]) is None,
        i < body.len() ==> row_issue(h, body[i]) is Some,
    ensures
        first_bad_row(h, body) == i,
    decreases body.len(),
{
    if body.len() == 0 {
    } else if row_issue(h, body[0]) is Some {
        assert(i == 0);
    } else {
        assert(forall|j: int|
            0 <= j < i - 1 ==> row_issue(h, #[trigger] body.skip(1)[j]) is None) by {
            assert(forall|j: int| 0 <= j < body.len() - 1 ==> body.skip(1)[j] == body[j + 1]);
        }
        assert(i - 1 < body.len() - 1 ==> row_issue(h, body.skip(1)[i - 1]) is Some);
        lemma_first_bad_row_at(h, body.skip(1), i - 1);
    }
}

/// Reads the body of a decoded table into raw rows under its header, exactly
/// as `load_outcome_matches` prescribes.
pub fn parse_table(header: Vec<String>, body: Vec<Vec<String>>) -> (r: Result<
    Vec<CsvFood>,
    LoadError,
>)
    ensures
        load_outcome_matches(header.deep_view(), body.deep_view(), r),
{
    let ghost h = header.deep_view();
    let ghost b = body.deep_view();
    if body.len() == 0 {
        return Ok(Vec::new());
    }
    let (cn, ni) = scan_header(&header, "name");
    if cn == 0 {
        return Err(LoadError::MissingColumn("name".to_owned()));
    }
    if cn != 1 {
        return Err(LoadError::DuplicateColumn("name".to_owned()));
    }
    let (cq, qi) = scan_header(&header, "quantity");
    if cq == 0 {
        return Err(LoadError::MissingColumn("quantity".to_owned()));
    }
    if cq != 1 {
        return Err(LoadError::DuplicateColumn("quantity".to_owned()));
    }
    let (cc, ci) = scan_header(&header, "category");
    if cc == 0 {
        return Err(LoadError::MissingColumn("category".to_owned()));
    }
    if cc != 1 {
        return Err(LoadError::DuplicateColumn("category".to_owned()));
    }
    let (ca, ai) = scan_header(&header, "active");
    if ca == 0 {
        return Err(LoadError::MissingColumn("active".to_owned()));
    }
    if ca != 1 {
        return Err(LoadError::DuplicateColumn("active".to_owned()));
    }
    let mut out: Vec<CsvFood> = Vec::new();
    let mut i: usize = 0;
    proof {
        assert(out.deep_view() =~= table_rows(h, b.take(0)));
    }
    while i < body.len()
        invariant
            i <= body@.len(),
            h == header.deep_view(),
            b == body.deep_view(),
            b.len() == body@.len(),
            header_issue(h) is None,
            ni == first_match(h, "name"@),
            qi == first_match(h, "quantity"@),
            ci == first_match(h, "category"@),
            ai == first_match(h, "active"@),
            forall|j: int| 0 <= j < i ==> row_issue(h, #[trigger] b[j]) is None,
            out.deep_view() == table_rows(h, b.take(i as int)),
        decreases body@.len() - i,
    {
        let row = &body[i];
        proof {
            assert(b[i as int] == row.deep_view());
        }
        if ni >= row.len() || qi >= row.len() || ci >= row.len() || ai >= row.len() {
            proof {
                lemma_first_bad_row_at(h, b, i as int);
            }
            return Err(LoadError::RowTooShort);
        }
        match parse_quantity(row[qi].as_str()) {
            None => {
                proof {
                    lemma_first_bad_row_at(h, b, i as int);
                }
                return Err(LoadError::BadQuantity(row[qi].clone()));
            },
            Some(q) => {
                let ghost prev = out.deep_view();
                let ghost prevv = out@;
                out.push(
                    CsvFood {
                        name: row[ni].clone(),
                        quantity: q,
                        category: row[ci].clone(),
                        active: row[ai].clone(),
                    },
                );
                proof {
                    assert(row_issue(h, b[i as int]) is None);
                    assert(prev.len() == i as int);
                    assert(prevv.len() == prev.len());
                    assert(out@.len() == prevv.len() + 1);
                    assert(out@.last().deep_view() == row_value(h, b[i as int]));
                    assert forall|j: int| 0 <= j < i + 1 implies out.deep_view()[j] == table_rows(
                        h,
                        b.take(i + 1),
                    )[j] by {
                        assert(b.take(i + 1)[j] == b[j]);
                        assert(table_rows(h, b.take(i + 1))[j] == row_value(h, b[j]));
                        if j < i {
                            assert(out@[j] == prevv[j]);
                            assert(out.deep_view()[j] == prevv[j].deep_view());
                            assert(prev[j] == table_rows(h, b.take(i as int))[j]);
                            assert(b.take(i as int)[j] == b[j]);
                        } else {
                            assert(out.deep_view()[j] == out@[i as int].deep_view());
                        }
                    }
                    assert(out.deep_view().len() == i + 1);
                    assert(table_rows(h, b.take(i + 1)).len() == i + 1);
                    assert(out.deep_view() =~= table_rows(h, b.take(i + 1)));
                }
                i = i + 1;
            },
        }
    }
    proof {
        lemma_first_bad_row_at(h, b, b.len() as int);
        assert(b.take(i as int) =~= b);
    }
    Ok(out)
}

/// What the tabular decoder reads out of a byte sequence: the header cells
/// and the body rows when it accepts the document, nothing when it rejects
/// it.  The outcome depends on the bytes alone.
pub uninterp spec fn csv_table_of(data: Seq<u8>) -> Option<(Seq<Seq<char>>, Seq<Seq<Seq<char>>>)>;

/// Relies on `csv::Reader::from_reader` with its default configuration (and
/// on `Reader::headers` / `Reader::records`): the first record is the
/// header, the remaining records the body, and decoding depends on the input
/// bytes alone; a malformed document (bad quoting, a row whose width differs
/// from the header's, invalid UTF-8) is reported as an error, whose message
/// is the decoder's own.
#[verifier::external_body]
fn decode_csv(data: &[u8]) -> (r: Result<(Vec<String>, Vec<Vec<String>>), String>)
    ensures
        (match r {
            Ok(t) => csv_table_of(data@) == Some((t.0.deep_view(), t.1.deep_view())),
            Err(_) => csv_table_of(data@) is None,
        }),
{
    let mut rdr = csv::Reader::from_reader(data);
    let header: Vec<String> = match rdr.headers() {
        Ok(h) => h.iter().map(|f| f.to_string()).collect(),
        Err(e) => return Err(e.to_string()),
    };
    let mut body: Vec<Vec<String>> = Vec::new();
    for rec in rdr.records() {
        match rec {
            Ok(row) => body.push(row.iter().map(|f| f.to_string()).collect()),
            Err(e) => return Err(e.to_string()),
        }
    }
    Ok((header, body))
}

/// Loads raw rows from the bytes of a comma-separated document whose header
/// names the four fields.  Loading is all-or-nothing: a document the decoder
/// rejects, or any single row that does not read as a raw row, fails the
/// whole load.
pub fn load_csv_raw(data: &[u8]) -> (r: Result<Vec<CsvFood>, LoadError>)
    ensures
        (match csv_table_of(data@) {
            None => r matches Err(e) && e@ is Tabular,
            Some(t) => load_outcome_matches(t.0, t.1, r),
        }),
{
    match decode_csv(data) {
        Err(m) => Err(LoadError::Tabular(m)),
        Ok((header, body)) => parse_table(header, body),
    }
}

} // verus!
