//! The textual inputs of the C interface: comma-separated column names and
//! a schema written as a JSON array of field objects.
use vstd::prelude::*;
use crate::schema::{DataType, Field, Schema};
use crate::text::{
    char_is_whitespace, is_unicode_whitespace, spec_split, spec_trim, spec_views, split_char, str_trim,
};

verus! {

/// The pieces, trimmed, that are not empty once trimmed.
pub open spec fn spec_nonempty_trimmed(ps: Seq<Seq<char>>) -> Seq<Seq<char>>
    decreases ps.len(),
{
    if ps.len() == 0 {
        seq![]
    } else {
        let rest = spec_nonempty_trimmed(ps.drop_last());
        if spec_trim(ps.last()).len() > 0 {
            rest.push(spec_trim(ps.last()))
        } else {
            rest
        }
    }
}

/// The names in a comma-separated list: the trimmed pieces between commas
/// that are not empty.
pub open spec fn spec_csv_names(s: Seq<char>) -> Seq<Seq<char>> {
    let t = spec_trim(s);
    if t.len() == 0 {
        seq![]
    } else {
        spec_nonempty_trimmed(spec_split(t, ','))
    }
}

/// The names in a comma-separated list.
pub fn parse_csv_names(s: &str) -> (r: Vec<String>)
    ensures
        spec_views(r@) == spec_csv_names(s@),
{
    let t = str_trim(s);
    if t.unicode_len() == 0 {
        let r: Vec<String> = Vec::new();
        assert(spec_views(r@) =~= Seq::<Seq<char>>::empty());
        return r;
    }
    let pieces = split_char(t, ',');
    let ghost ps = spec_views(pieces@);
    let mut r: Vec<String> = Vec::new();
    let mut i: usize = 0;
    assert(ps.take(0) =~= Seq::<Seq<char>>::empty());
    assert(spec_views(r@) =~= Seq::<Seq<char>>::empty());
    while i < pieces.len()
        invariant
            i <= pieces@.len(),
            ps == spec_views(pieces@),
            spec_views(r@) == spec_nonempty_trimmed(ps.take(i as int)),
        decreases pieces@.len() - i,
    {
        proof {
            assert(ps.take(i + 1).drop_last() =~= ps.take(i as int));
            assert(ps.take(i + 1).last() == pieces@[i as int]@);
        }
        let piece = str_trim(pieces[i].as_str());
        if piece.unicode_len() > 0 {
            let ghost before = spec_views(r@);
            r.push(piece.to_owned());
            assert(spec_views(r@) =~= before.push(piece@));
        }
        i = i + 1;
    }
    assert(ps.take(i as int) =~= ps);
    r
}

/// What `str::to_lowercase` gives for `s`.
pub uninterp spec fn lowercase(s: Seq<char>) -> Seq<char>;

/// Calls `str::to_lowercase`: the lowercase form of `s`, named by
/// `lowercase`.
#[verifier::external_body]
fn str_to_lowercase(s: &str) -> (r: String)
    ensures
        r@ == lowercase(s@),
{
    s.to_lowercase()
}

/// Collects characters into a string: the string of exactly those
/// characters, in order.
#[verifier::external_body]
fn string_from_chars(cs: &Vec<char>) -> (r: String)
    ensures
        r@ == cs@,
{
    cs.iter().collect()
}

/// The data type a lowercase type name stands for.
pub open spec fn spec_data_type_named(lower: Seq<char>) -> Option<DataType> {
    if lower == "int64"@ {
        Some(DataType::Int64)
    } else if lower == "float64"@ || lower == "double"@ {
        Some(DataType::Float64)
    } else if lower == "utf8"@ || lower == "string"@ {
        Some(DataType::Utf8)
    } else if lower == "timestamp"@ {
        Some(DataType::Timestamp)
    } else {
        None
    }
}

/// The data type a lowercase type name stands for.
pub fn data_type_named(lower: &str) -> (r: Option<DataType>)
    ensures
        r == spec_data_type_named(lower@),
{
    let s = lower.to_owned();
    if s == String::from_str("int64") {
        Some(DataType::Int64)
    } else if s == String::from_str("float64") || s == String::from_str("double") {
        Some(DataType::Float64)
    } else if s == String::from_str("utf8") || s == String::from_str("string") {
        Some(DataType::Utf8)
    } else if s == String::from_str("timestamp") {
        Some(DataType::Timestamp)
    } else {
        None
    }
}

/// Where the scan of a field object stands: the name and type found so
/// far, the key and value being read, whether a key is being read, and
/// whether the scan is inside quotes.
pub struct FieldScan {
    pub name: Seq<char>,
    pub ty: Seq<char>,
    pub key: Seq<char>,
    pub val: Seq<char>,
    pub in_key: bool,
    pub in_str: bool,
}

/// A key and value read: `name` and `type` set the name and the type.
pub open spec fn spec_commit(st: FieldScan) -> FieldScan {
    let k = spec_trim(st.key);
    let v = spec_trim(st.val);
    FieldScan {
        name: if k == "name"@ { v } else { st.name },
        ty: if k == "type"@ { v } else { st.ty },
        ..st
    }
}

/// One character of a field object: a quote enters or leaves quotes and is
/// dropped; outside quotes, a colon ends the key, a comma ends a pair and
/// whitespace is dropped; anything else goes to the key or the value.
pub open spec fn spec_scan_step(st: FieldScan, c: char) -> FieldScan {
    if c == '"' {
        FieldScan { in_str: !st.in_str, ..st }
    } else if c == ':' && !st.in_str {
        FieldScan { in_key: false, ..st }
    } else if c == ',' && !st.in_str {
        FieldScan { key: seq![], val: seq![], in_key: true, ..spec_commit(st) }
    } else if !st.in_str && is_unicode_whitespace(c) {
        st
    } else if st.in_key {
        FieldScan { key: st.key.push(c), ..st }
    } else {
        FieldScan { val: st.val.push(c), ..st }
    }
}

/// The scan of all of `cs` from the start.
pub open spec fn spec_scan(cs: Seq<char>) -> FieldScan
    decreases cs.len(),
{
    if cs.len() == 0 {
        FieldScan { name: seq![], ty: seq![], key: seq![], val: seq![], in_key: true, in_str: false }
    } else {
        spec_scan_step(spec_scan(cs.drop_last()), cs.last())
    }
}

/// The message for a type name that is not known.
pub open spec fn spec_unknown_type_message(ty: Seq<char>, name: Seq<char>) -> Seq<char> {
    "Unknown type '"@ + ty + "' for field '"@ + name + "'"@
}

/// A field object: `{`, then keys and values separated by colons, pairs
/// separated by commas, then `}`; its `name` and `type` give the field,
/// which is nullable. An error where the text is not braced, has no name,
/// or names a type that is not known (in any case).
pub open spec fn spec_parse_field(s: Seq<char>) -> Result<(Seq<char>, DataType), Seq<char>> {
    let t = spec_trim(s);
    if !(t.len() > 0 && t[0] == '{' && t.last() == '}') {
        Err("Field must be a JSON object"@)
    } else {
        let st = spec_commit(spec_scan(spec_trim(t.subrange(1, t.len() - 1))));
        if st.name.len() == 0 {
            Err("Field missing 'name'"@)
        } else {
            match spec_data_type_named(lowercase(st.ty)) {
                Some(dt) => Ok((st.name, dt)),
                None => Err(spec_unknown_type_message(st.ty, st.name)),
            }
        }
    }
}

/// The scan state as executable values.
struct ScanState {
    name: Vec<char>,
    ty: Vec<char>,
    key: Vec<char>,
    val: Vec<char>,
    in_key: bool,
    in_str: bool,
}

spec fn scan_view(st: ScanState) -> FieldScan {
    FieldScan { name: st.name@, ty: st.ty@, key: st.key@, val: st.val@, in_key: st.in_key, in_str: st.in_str }
}

/// The characters of `s` without leading and trailing whitespace.
fn trim_chars(s: &Vec<char>) -> (r: Vec<char>)
    ensures
        r@ == spec_trim(s@),
{
    let text = string_from_chars(s);
    let t = str_trim(text.as_str());
    let n = t.unicode_len();
    let mut r: Vec<char> = Vec::new();
    let mut i: usize = 0;
    while i < n
        invariant
            i <= n,
            n == t@.len(),
            r@ == t@.take(i as int),
        decreases n - i,
    {
        r.push(t.get_char(i));
        i = i + 1;
        assert(r@ =~= t@.take(i as int));
    }
    assert(t@.take(i as int) =~= t@);
    r
}

/// Whether the characters are those of `word`.
fn chars_are(cs: &Vec<char>, word: &str) -> (b: bool)
    ensures
        b == (cs@ == word@),
{
    let n = word.unicode_len();
    if cs.len() != n {
        return false;
    }
    let mut i: usize = 0;
    while i < n
        invariant
            i <= n,
            n == word@.len(),
            cs@.len() == n,
            forall|j: int| 0 <= j < i ==> cs@[j] == word@[j],
        decreases n - i,
    {
        if cs[i] != word.get_char(i) {
            return false;
        }
        i = i + 1;
    }
    assert(cs@ =~= word@);
    true
}

/// Records the key and value read.
fn commit(st: &mut ScanState)
    ensures
        scan_view(*final(st)) == spec_commit(scan_view(*old(st))),
{
    let k = trim_chars(&st.key);
    let v = trim_chars(&st.val);
    proof {
        reveal_strlit("name");
        reveal_strlit("type");
        assert("name"@ != "type"@) by {
            assert("name"@[0] != "type"@[0]);
        }
    }
    if chars_are(&k, "name") {
        st.name = v;
    } else if chars_are(&k, "type") {
        st.ty = v;
    }
}

/// The field an object describes, or the error it gives.
pub fn parse_field_object(s: &str) -> (r: Result<Field, String>)
    ensures
        match spec_parse_field(s@) {
            Ok((name, dt)) => r matches Ok(f) && f.name@ == name && f.data_type == dt && f.nullable,
            Err(e) => r matches Err(m) && m@ == e,
        },
{
    let t = str_trim(s);
    let n = t.unicode_len();
    if !(n > 0 && t.get_char(0) == '{' && t.get_char(n - 1) == '}') {
        return Err(String::from_str("Field must be a JSON object"));
    }
    if n < 2 {
        assert(t@[0] == t@.last());
        return Err(String::from_str("Field must be a JSON object"));
    }
    let inner = str_trim(t.substring_char(1, n - 1));
    let m = inner.unicode_len();
    let mut st = ScanState {
        name: Vec::new(),
        ty: Vec::new(),
        key: Vec::new(),
        val: Vec::new(),
        in_key: true,
        in_str: false,
    };
    let mut i: usize = 0;
    proof {
        assert(inner@.take(0) =~= Seq::<char>::empty());
        assert(scan_view(st) =~= spec_scan(Seq::<char>::empty()));
    }
    while i < m
        invariant
            i <= m,
            m == inner@.len(),
            scan_view(st) == spec_scan(inner@.take(i as int)),
        decreases m - i,
    {
        let c = inner.get_char(i);
        proof {
            assert(inner@.take(i + 1).drop_last() =~= inner@.take(i as int));
            assert(inner@.take(i + 1).last() == c);
        }
        let ghost before = scan_view(st);
        if c == '"' {
            st.in_str = !st.in_str;
        } else if c == ':' && !st.in_str {
            st.in_key = false;
        } else if c == ',' && !st.in_str {
            commit(&mut st);
            st.key = Vec::new();
            st.val = Vec::new();
            st.in_key = true;
        } else if !st.in_str && char_is_whitespace(c) {
        } else if st.in_key {
            st.key.push(c);
        } else {
            st.val.push(c);
        }
        assert(scan_view(st) =~= spec_scan_step(before, c));
        i = i + 1;
    }
    assert(inner@.take(i as int) =~= inner@);
    commit(&mut st);
    if st.name.len() == 0 {
        return Err(String::from_str("Field missing 'name'"));
    }
    let name = string_from_chars(&st.name);
    let ty = string_from_chars(&st.ty);
    let lower = str_to_lowercase(ty.as_str());
    match data_type_named(lower.as_str()) {
        Some(dt) => Ok(Field { name, data_type: dt, nullable: true }),
        None => {
            let mut msg = String::from_str("Unknown type '");
            msg.append(ty.as_str());
            msg.append("' for field '");
            msg.append(name.as_str());
            msg.append("'");
            Err(msg)
        },
    }
}

/// Where the split of a schema array stands: the pieces split off, the
/// piece being read, and the nesting depth of brackets and braces.
#[verifier::ext_equal]
pub struct DepthSplit {
    pub pieces: Seq<Seq<char>>,
    pub current: Seq<char>,
    pub depth: int,
}

/// One character of the array's contents: an opening bracket or brace goes
/// one level deeper, a closing one a level up, and a comma at the top
/// level ends a piece and is dropped.
pub open spec fn spec_depth_step(st: DepthSplit, c: char) -> DepthSplit {
    if c == '{' || c == '[' {
        DepthSplit { current: st.current.push(c), depth: st.depth + 1, ..st }
    } else if c == '}' || c == ']' {
        DepthSplit { current: st.current.push(c), depth: st.depth - 1, ..st }
    } else if c == ',' && st.depth == 0 {
        DepthSplit { pieces: st.pieces.push(st.current), current: seq![], ..st }
    } else {
        DepthSplit { current: st.current.push(c), ..st }
    }
}

/// The split of all of `cs`.
pub open spec fn spec_depth_split(cs: Seq<char>) -> DepthSplit
    decreases cs.len(),
{
    if cs.len() == 0 {
        DepthSplit { pieces: seq![], current: seq![], depth: 0 }
    } else {
        spec_depth_step(spec_depth_split(cs.drop_last()), cs.last())
    }
}

/// The fields of the pieces, in order, or the error of the first piece
/// that is not a field.
pub open spec fn spec_parse_pieces(ps: Seq<Seq<char>>) -> Result<Seq<(Seq<char>, DataType)>, Seq<char>>
    decreases ps.len(),
{
    if ps.len() == 0 {
        Ok(seq![])
    } else {
        match spec_parse_pieces(ps.drop_last()) {
            Err(e) => Err(e),
            Ok(fs) => match spec_parse_field(ps.last()) {
                Ok(f) => Ok(fs.push(f)),
                Err(e) => Err(e),
            },
        }
    }
}

/// A schema array: `[`, field objects separated by top-level commas, `]`;
/// the last piece may be blank. An error where the text is not bracketed,
/// or that of the first piece that is not a field object.
pub open spec fn spec_parse_schema(s: Seq<char>) -> Result<Seq<(Seq<char>, DataType)>, Seq<char>> {
    let t = spec_trim(s);
    if !(t.len() > 0 && t[0] == '[' && t.last() == ']') {
        Err("Schema JSON must be an array"@)
    } else {
        let inner = spec_trim(t.subrange(1, t.len() - 1));
        if inner.len() == 0 {
            Ok(seq![])
        } else {
            let sp = spec_depth_split(inner);
            match spec_parse_pieces(sp.pieces) {
                Err(e) => Err(e),
                Ok(fs) => if spec_trim(sp.current).len() == 0 {
                    Ok(fs)
                } else {
                    match spec_parse_field(sp.current) {
                        Ok(f) => Ok(fs.push(f)),
                        Err(e) => Err(e),
                    }
                },
            }
        }
    }
}

/// The schema a JSON array of field objects describes, or the error it
/// gives.
pub fn parse_schema_json(json: &str) -> (r: Result<Schema, String>)
    requires
        json@.len() <= i32::MAX,
    ensures
        match spec_parse_schema(json@) {
            Ok(fs) => r matches Ok(schema) && schema.fields@.len() == fs.len() && forall|i: int|
                0 <= i < fs.len() ==> (#[trigger] schema.fields@[i]).name@ == fs[i].0 && schema.fields@[i].data_type
                    == fs[i].1 && schema.fields@[i].nullable,
            Err(e) => r matches Err(m) && m@ == e,
        },
{
    let t = str_trim(json);
    let n = t.unicode_len();
    proof {
        lemma_trim_shorter(json@);
    }
    if !(n > 0 && t.get_char(0) == '[' && t.get_char(n - 1) == ']') || n < 2 {
        proof {
            if n == 1 {
                assert(t@[0] == t@.last());
            }
        }
        return Err(String::from_str("Schema JSON must be an array"));
    }
    let inner = str_trim(t.substring_char(1, n - 1));
    let m = inner.unicode_len();
    proof {
        lemma_trim_shorter(t@.subrange(1, n - 1));
    }
    if m == 0 {
        let schema = Schema { fields: Vec::new() };
        assert(schema.fields@.len() == 0);
        return Ok(schema);
    }
    // Split at top-level commas, then read each piece.
    let mut pieces: Vec<String> = Vec::new();
    let mut start: usize = 0;
    let mut depth: i32 = 0;
    let mut i: usize = 0;
    proof {
        assert(inner@.take(0) =~= Seq::<char>::empty());
        assert(inner@.subrange(0, 0) =~= Seq::<char>::empty());
        assert(spec_views(pieces@) =~= Seq::<Seq<char>>::empty());
        assert(spec_depth_split(inner@.take(0)) =~= (DepthSplit {
            pieces: spec_views(pieces@),
            current: inner@.subrange(0, 0),
            depth: 0,
        }));
    }
    while i < m
        invariant
            i <= m,
            m == inner@.len(),
            m <= i32::MAX,
            start <= i,
            -(i as int) <= depth <= i,
            spec_depth_split(inner@.take(i as int)) == (DepthSplit {
                pieces: spec_views(pieces@),
                current: inner@.subrange(start as int, i as int),
                depth: depth as int,
            }),
        decreases m - i,
    {
        let c = inner.get_char(i);
        proof {
            assert(inner@.take(i + 1).drop_last() =~= inner@.take(i as int));
            assert(inner@.take(i + 1).last() == c);
        }
        let ghost before = spec_views(pieces@);
        if c == '{' || c == '[' {
            depth = depth + 1;
            assert(inner@.subrange(start as int, i + 1) =~= inner@.subrange(start as int, i as int).push(c));
        } else if c == '}' || c == ']' {
            depth = depth - 1;
            assert(inner@.subrange(start as int, i + 1) =~= inner@.subrange(start as int, i as int).push(c));
        } else if c == ',' && depth == 0 {
            let ghost old_start = start;
            pieces.push(inner.substring_char(start, i).to_owned());
            start = i + 1;
            assert(spec_views(pieces@) =~= before.push(inner@.subrange(old_start as int, i as int)));
            assert(inner@.subrange(start as int, i + 1) =~= Seq::<char>::empty());
        } else {
            assert(inner@.subrange(start as int, i + 1) =~= inner@.subrange(start as int, i as int).push(c));
        }
        i = i + 1;
    }
    assert(inner@.take(i as int) =~= inner@);
    let last = inner.substring_char(start, m);
    let ghost ps = spec_views(pieces@);
    let mut fields: Vec<Field> = Vec::new();
    let mut k: usize = 0;
    assert(ps.take(0) =~= Seq::<Seq<char>>::empty());
    while k < pieces.len()
        invariant
            k <= pieces@.len(),
            ps == spec_views(pieces@),
            t@ == spec_trim(json@),
            n == t@.len(),
            n >= 2,
            t@[0] == '[',
            t@.last() == ']',
            inner@ == spec_trim(t@.subrange(1, n - 1)),
            inner@.len() > 0,
            spec_depth_split(inner@).pieces == ps,
            spec_depth_split(inner@).current == last@,
            spec_parse_pieces(ps.take(k as int)) matches Ok(fs) && fields@.len() == fs.len() && forall|j: int|
                0 <= j < fs.len() ==> (#[trigger] fields@[j]).name@ == fs[j].0 && fields@[j].data_type == fs[j].1
                    && fields@[j].nullable,
        decreases pieces@.len() - k,
    {
        proof {
            assert(ps.take(k + 1).drop_last() =~= ps.take(k as int));
            assert(ps.take(k + 1).last() == pieces@[k as int]@);
        }
        match parse_field_object(pieces[k].as_str()) {
            Ok(f) => {
                fields.push(f);
            },
            Err(e) => {
                proof {
                    lemma_parse_pieces_prefix_err(ps, k as int + 1);
                }
                return Err(e);
            },
        }
        k = k + 1;
    }
    assert(ps.take(k as int) =~= ps);
    let lt = str_trim(last);
    if lt.unicode_len() == 0 {
        return Ok(Schema { fields });
    }
    match parse_field_object(last) {
        Ok(f) => {
            fields.push(f);
            Ok(Schema { fields })
        },
        Err(e) => Err(e),
    }
}

/// Trimming never makes a string longer.
proof fn lemma_trim_shorter(s: Seq<char>)
    ensures
        spec_trim(s).len() <= s.len(),
{
    lemma_trim_start_shorter(s);
    lemma_trim_end_shorter(crate::text::spec_trim_start(s));
}

proof fn lemma_trim_start_shorter(s: Seq<char>)
    ensures
        crate::text::spec_trim_start(s).len() <= s.len(),
    decreases s.len(),
{
    if s.len() > 0 {
        lemma_trim_start_shorter(s.drop_first());
    }
}

proof fn lemma_trim_end_shorter(s: Seq<char>)
    ensures
        crate::text::spec_trim_end(s).len() <= s.len(),
    decreases s.len(),
{
    if s.len() > 0 {
        lemma_trim_end_shorter(s.drop_last());
    }
}

/// An error in a prefix of the pieces is the error of all of them.
proof fn lemma_parse_pieces_prefix_err(ps: Seq<Seq<char>>, n: int)
    requires
        0 <= n <= ps.len(),
        spec_parse_pieces(ps.take(n)) is Err,
    ensures
        spec_parse_pieces(ps) == spec_parse_pieces(ps.take(n)),
    decreases ps.len(),
{
    if n < ps.len() {
        assert(ps.drop_last().take(n) =~= ps.take(n));
        lemma_parse_pieces_prefix_err(ps.drop_last(), n);
    } else {
        assert(ps.take(n) =~= ps);
    }
}

} // verus!
