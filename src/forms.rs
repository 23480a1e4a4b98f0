//! Reading of submitted forms and of uploaded photos' content types.
use vstd::prelude::*;
use vstd::string::{StrSliceExecFns, StringExecFns};
use vstd::utf8::{decode_utf8, valid_utf8};

verus! {

/// Whether two strings hold the same characters.
pub fn str_equals(a: &str, b: &str) -> (r: bool)
    ensures
        r == (a@ == b@),
{
    let n = a.unicode_len();
    if n != b.unicode_len() {
        return false;
    }
    let mut i: usize = 0;
    while i < n
        invariant
            n == a@.len(),
            n == b@.len(),
            i <= n,
            forall|k: int| 0 <= k < i ==> a@[k] == b@[k],
        decreases n - i,
    {
        if a.get_char(i) != b.get_char(i) {
            return false;
        }
        i = i + 1;
    }
    assert(a@ =~= b@);
    true
}

/// Whether `s` ends with `suffix`.
pub fn str_ends_with(s: &str, suffix: &str) -> (r: bool)
    ensures
        r == (suffix@.len() <= s@.len() && s@.subrange(
            s@.len() - suffix@.len(),
            s@.len() as int,
        ) == suffix@),
{
    let n = s.unicode_len();
    let m = suffix.unicode_len();
    if m > n {
        return false;
    }
    let mut i: usize = 0;
    while i < m
        invariant
            n == s@.len(),
            m == suffix@.len(),
            m <= n,
            i <= m,
            forall|k: int| 0 <= k < i ==> s@[n - m + k] == suffix@[k],
        decreases m - i,
    {
        if s.get_char(n - m + i) != suffix.get_char(i) {
            assert(s@.subrange(n - m, n as int)[i as int] != suffix@[i as int]);
            return false;
        }
        i = i + 1;
    }
    assert(s@.subrange(n - m, n as int) =~= suffix@);
    true
}

/// The image types that a recipe photo may have.
pub open spec fn supported_image_type(m: Seq<char>) -> bool {
    m == "image/jpeg"@ || m == "image/jpg"@ || m == "image/png"@ || m == "image/webp"@
}

/// Whether a photo of content type `mime_type` is accepted.
pub fn is_supported_image_type(mime_type: &str) -> (r: bool)
    ensures
        r == supported_image_type(mime_type@),
{
    str_equals(mime_type, "image/jpeg") || str_equals(mime_type, "image/jpg") || str_equals(
        mime_type,
        "image/png",
    ) || str_equals(mime_type, "image/webp")
}

/// The file extension under which a photo of a content type is stored;
/// JPEG for any type not known.
pub open spec fn extension_for(content_type: Seq<char>) -> Seq<char> {
    if content_type == "image/png"@ {
        "png"@
    } else if content_type == "image/webp"@ {
        "webp"@
    } else {
        "jpg"@
    }
}

/// The file extension under which a photo of `content_type` is stored.
pub fn get_file_extension_from_content_type(content_type: &str) -> (r: &str)
    ensures
        r@ == extension_for(content_type@),
{
    if str_equals(content_type, "image/png") {
        "png"
    } else if str_equals(content_type, "image/webp") {
        "webp"
    } else {
        "jpg"
    }
}

/// Whether `s` ends with `suffix`, over character sequences.
pub open spec fn ends_with(s: Seq<char>, suffix: Seq<char>) -> bool {
    suffix.len() <= s.len() && s.subrange(s.len() - suffix.len(), s.len() as int) == suffix
}

/// The content type under which a stored photo file is served, by its
/// name's extension.
pub open spec fn content_type_for(filename: Seq<char>) -> Seq<char> {
    if ends_with(filename, ".jpg"@) || ends_with(filename, ".jpeg"@) {
        "image/jpeg"@
    } else if ends_with(filename, ".png"@) {
        "image/png"@
    } else if ends_with(filename, ".webp"@) {
        "image/webp"@
    } else {
        "application/octet-stream"@
    }
}

/// The content type under which the photo file `filename` is served.
pub fn content_type_for_filename(filename: &str) -> (r: &str)
    ensures
        r@ == content_type_for(filename@),
{
    if str_ends_with(filename, ".jpg") || str_ends_with(filename, ".jpeg") {
        "image/jpeg"
    } else if str_ends_with(filename, ".png") {
        "image/png"
    } else if str_ends_with(filename, ".webp") {
        "image/webp"
    } else {
        "application/octet-stream"
    }
}

/// Limits on the photos of a recipe.
pub struct PhotoUploadLimits {
    pub max_photos: usize,
    pub max_file_size: usize,
}

impl Default for PhotoUploadLimits {
    /// At most ten photos per recipe, of at most 10 MiB each.
    fn default() -> (r: Self)
        ensures
            r.max_photos == 10,
            r.max_file_size == 10 * 1024 * 1024,
    {
        PhotoUploadLimits { max_photos: 10, max_file_size: 10 * 1024 * 1024 }
    }
}

impl PhotoUploadLimits {
    /// Whether a photo of `size` bytes is taken: it is not empty and not
    /// over the size limit.
    pub fn accepts_size(&self, size: usize) -> (r: bool)
        ensures
            r == (0 < size <= self.max_file_size),
    {
        0 < size && size <= self.max_file_size
    }

    /// How many of `offered` photos a recipe that has `existing` photos
    /// still takes.
    pub fn photos_to_take(&self, existing: usize, offered: usize) -> (r: usize)
        ensures
            existing >= self.max_photos ==> r == 0,
            existing < self.max_photos ==> r as int == vstd::math::min(
                offered as int,
                self.max_photos - existing,
            ),
    {
        if existing >= self.max_photos {
            0
        } else if offered < self.max_photos - existing {
            offered
        } else {
            self.max_photos - existing
        }
    }
}

/// The value of a string of decimal digits.
pub open spec fn digits_value(s: Seq<char>) -> int
    decreases s.len(),
{
    if s.len() == 0 {
        0
    } else {
        digits_value(s.drop_last()) * 10 + (s.last() as int - '0' as int)
    }
}

pub open spec fn all_digits(s: Seq<char>) -> bool {
    forall|i: int| 0 <= i < s.len() ==> '0' <= #[trigger] s[i] <= '9'
}

/// A `usize` written in decimal, with an optional leading `+`, as std's
/// `usize::from_str` reads it: `None` where it is not such a number or does
/// not fit.
pub open spec fn parse_usize_spec(s: Seq<char>) -> Option<usize> {
    let d = if s.len() > 0 && s[0] == '+' {
        s.subrange(1, s.len() as int)
    } else {
        s
    };
    if d.len() > 0 && all_digits(d) && digits_value(d) <= usize::MAX {
        Some(digits_value(d) as usize)
    } else {
        None
    }
}

proof fn lemma_digits_value_grows(s: Seq<char>, k: int)
    requires
        0 <= k <= s.len(),
        all_digits(s),
    ensures
        0 <= digits_value(s.subrange(0, k)) <= digits_value(s),
    decreases s.len() - k,
{
    if k < s.len() {
        lemma_digits_value_grows(s, k + 1);
        assert(s.subrange(0, k + 1).drop_last() =~= s.subrange(0, k));
        assert(digits_value(s.subrange(0, k)) >= 0) by {
            lemma_digits_value_nonneg(s.subrange(0, k));
        }
    } else {
        assert(s.subrange(0, k) =~= s);
        lemma_digits_value_nonneg(s);
    }
}

proof fn lemma_digits_value_nonneg(s: Seq<char>)
    requires
        all_digits(s),
    ensures
        digits_value(s) >= 0,
    decreases s.len(),
{
    if s.len() > 0 {
        assert(all_digits(s.drop_last()));
        lemma_digits_value_nonneg(s.drop_last());
    }
}

/// Reads a decimal `usize` as `usize::from_str` does.
pub fn parse_usize(s: &str) -> (r: Option<usize>)
    ensures
        r == parse_usize_spec(s@),
{
    let n = s.unicode_len();
    let start: usize = if n > 0 && s.get_char(0) == '+' {
        1
    } else {
        0
    };
    let ghost d = s@.subrange(start as int, n as int);
    assert(d =~= (if s@.len() > 0 && s@[0] == '+' {
        s@.subrange(1, s@.len() as int)
    } else {
        s@
    }));
    if start == n {
        return None;
    }
    let mut v: usize = 0;
    let mut i: usize = start;
    while i < n
        invariant
            n == s@.len(),
            start <= i <= n,
            d == s@.subrange(start as int, n as int),
            d == (if s@.len() > 0 && s@[0] == '+' {
                s@.subrange(1, s@.len() as int)
            } else {
                s@
            }),
            all_digits(d.subrange(0, i - start)),
            v == digits_value(d.subrange(0, i - start)),
        decreases n - i,
    {
        let c = s.get_char(i);
        assert(d.subrange(0, i + 1 - start).drop_last() =~= d.subrange(0, i - start));
        assert(d[i - start] == c);
        assert(d.subrange(0, i + 1 - start).last() == c);
        if c < '0' || c > '9' {
            assert(!all_digits(d));
            return None;
        }
        let digit = (c as u32 - '0' as u32) as usize;
        if v > (usize::MAX - digit) / 10 {
            proof {
                assert(v * 10 + digit > usize::MAX) by (nonlinear_arith)
                    requires
                        v > (usize::MAX - digit) / 10,
                        digit <= 9,
                ;
                if all_digits(d) {
                    lemma_digits_value_grows(d, i + 1 - start);
                }
            }
            return None;
        }
        assert(v * 10 + digit <= usize::MAX) by (nonlinear_arith)
            requires
                v <= (usize::MAX - digit) / 10,
                digit <= 9,
        ;
        v = v * 10 + digit;
        assert(all_digits(d.subrange(0, i + 1 - start)));
        i = i + 1;
    }
    assert(d.subrange(0, n - start) =~= d);
    Some(v)
}

/// Reads an optional identifier from a form: an empty or missing field is
/// no identifier; anything else must be a decimal `usize`.
pub fn parse_optional_usize(s: Option<String>) -> (r: Result<Option<usize>, ()>)
    ensures
        match s {
            None => r == Ok::<Option<usize>, ()>(None),
            Some(t) => if t@.len() == 0 {
                r == Ok::<Option<usize>, ()>(None)
            } else {
                match parse_usize_spec(t@) {
                    Some(n) => r == Ok::<Option<usize>, ()>(Some(n)),
                    None => r is Err,
                }
            },
        },
{
    match s {
        None => Ok(None),
        Some(t) => {
            if t.as_str().is_empty() {
                Ok(None)
            } else {
                match parse_usize(t.as_str()) {
                    Some(n) => Ok(Some(n)),
                    None => Err(()),
                }
            }
        },
    }
}

/// Every `+` turned into a space.
pub open spec fn plus_to_space(s: Seq<char>) -> Seq<char> {
    s.map_values(|c: char| if c == '+' { ' ' } else { c })
}

/// Every `%20`, read from the left, turned into a space.
pub open spec fn pct20_to_space(s: Seq<char>) -> Seq<char>
    decreases s.len(),
{
    if s.len() < 3 {
        s
    } else if s[0] == '%' && s[1] == '2' && s[2] == '0' {
        seq![' '] + pct20_to_space(s.subrange(3, s.len() as int))
    } else {
        seq![s[0]] + pct20_to_space(s.subrange(1, s.len() as int))
    }
}

/// A form value with its spaces decoded: `+` first, then `%20`.
pub open spec fn decode_form_value(s: Seq<char>) -> Seq<char> {
    pct20_to_space(plus_to_space(s))
}

fn replace_plus(s: &str) -> (r: String)
    ensures
        r@ == plus_to_space(s@),
{
    let n = s.unicode_len();
    let mut out = String::new();
    let mut start: usize = 0;
    let mut i: usize = 0;
    while i < n
        invariant
            n == s@.len(),
            start <= i <= n,
            out@ + s@.subrange(start as int, i as int) == plus_to_space(s@.subrange(0, i as int)),
            forall|k: int| start <= k < i ==> s@[k] != '+',
        decreases n - i,
    {
        assert(plus_to_space(s@.subrange(0, i + 1)) =~= plus_to_space(s@.subrange(0, i as int)).push(
            if s@[i as int] == '+' {
                ' '
            } else {
                s@[i as int]
            },
        ));
        if s.get_char(i) == '+' {
            let ghost before = out@;
            out.append(s.substring_char(start, i));
            proof {
                reveal_strlit(" ");
            }
            out.append(" ");
            assert(out@ =~= before + s@.subrange(start as int, i as int) + seq![' ']);
            start = i + 1;
            assert(s@.subrange(start as int, i + 1) =~= Seq::<char>::empty());
            assert(out@ + s@.subrange(start as int, i + 1) =~= plus_to_space(s@.subrange(0, i + 1)));
        } else {
            assert(s@.subrange(start as int, i + 1) =~= s@.subrange(start as int, i as int).push(
                s@[i as int],
            ));
            assert(out@ + s@.subrange(start as int, i + 1) =~= plus_to_space(s@.subrange(0, i + 1)));
        }
        i = i + 1;
    }
    assert(s@.subrange(0, n as int) =~= s@);
    out.append(s.substring_char(start, n));
    out
}

fn replace_pct20(s: &str) -> (r: String)
    ensures
        r@ == pct20_to_space(s@),
{
    let n = s.unicode_len();
    let mut out = String::new();
    let mut start: usize = 0;
    let mut i: usize = 0;
    assert(s@.subrange(0, n as int) =~= s@);
    while i < n
        invariant
            n == s@.len(),
            start <= i <= n,
            out@ + s@.subrange(start as int, i as int) + pct20_to_space(s@.subrange(i as int, n as int))
                == pct20_to_space(s@),
        decreases n - i,
    {
        let ghost t = s@.subrange(i as int, n as int);
        if n - i > 2 && s.get_char(i) == '%' && s.get_char(i + 1) == '2' && s.get_char(i + 2) == '0' {
            assert(t.subrange(3, t.len() as int) =~= s@.subrange(i + 3, n as int));
            let ghost before = out@;
            let ghost old_start = start;
            let ghost old_i = i;
            out.append(s.substring_char(start, i));
            proof {
                reveal_strlit(" ");
            }
            out.append(" ");
            assert(out@ =~= before + s@.subrange(start as int, i as int) + seq![' ']);
            assert(pct20_to_space(t) == seq![' '] + pct20_to_space(s@.subrange(i + 3, n as int)));
            i = i + 3;
            start = i;
            assert(s@.subrange(start as int, i as int) =~= Seq::<char>::empty());
            assert(out@ + s@.subrange(start as int, i as int) + pct20_to_space(
                s@.subrange(i as int, n as int),
            ) =~= before + s@.subrange(old_start as int, old_i as int) + pct20_to_space(t));
        } else {
            assert(t.subrange(1, t.len() as int) =~= s@.subrange(i + 1, n as int));
            proof {
                if t.len() < 3 {
                    assert(pct20_to_space(s@.subrange(i + 1, n as int)) == s@.subrange(
                        i + 1,
                        n as int,
                    ));
                    assert(t =~= seq![t[0]] + t.subrange(1, t.len() as int));
                }
            }
            assert(s@.subrange(start as int, i + 1) =~= s@.subrange(start as int, i as int).push(
                s@[i as int],
            ));
            assert(pct20_to_space(t) == seq![t[0]] + pct20_to_space(s@.subrange(i + 1, n as int)));
            assert(out@ + s@.subrange(start as int, i + 1) + pct20_to_space(
                s@.subrange(i + 1, n as int),
            ) =~= out@ + s@.subrange(start as int, i as int) + pct20_to_space(t));
            i = i + 1;
        }
    }
    out.append(s.substring_char(start, n));
    proof {
        assert(s@.subrange(n as int, n as int) =~= Seq::<char>::empty());
    }
    out
}

/// Decodes the spaces of a form value.
pub fn decode_form_value_exec(s: &str) -> (r: String)
    ensures
        r@ == decode_form_value(s@),
{
    let p = replace_plus(s);
    replace_pct20(p.as_str())
}

/// The first index of `c` in `s`, or -1 where it does not occur.
pub open spec fn first_index(s: Seq<char>, c: char) -> int
    decreases s.len(),
{
    if s.len() == 0 {
        -1
    } else if s[0] == c {
        0
    } else {
        let r = first_index(s.drop_first(), c);
        if r < 0 {
            -1
        } else {
            r + 1
        }
    }
}

proof fn lemma_first_index(s: Seq<char>, c: char, k: int)
    requires
        0 <= k <= s.len(),
        forall|m: int| 0 <= m < k ==> s[m] != c,
        k < s.len() ==> s[k] == c,
    ensures
        first_index(s, c) == if k < s.len() {
            k
        } else {
            -1
        },
    decreases k,
{
    if k > 0 {
        lemma_first_index(s.drop_first(), c, k - 1);
    }
}

/// The pieces of `s` between occurrences of `c`, as `str::split` gives
/// them: one more piece than there are occurrences.
pub open spec fn split_on(s: Seq<char>, c: char) -> Seq<Seq<char>>
    decreases s.len(),
{
    if s.len() == 0 {
        seq![Seq::<char>::empty()]
    } else {
        let p = split_on(s.drop_last(), c);
        if s.last() == c {
            p.push(Seq::<char>::empty())
        } else {
            p.update(p.len() - 1, p.last().push(s.last()))
        }
    }
}

/// The name and the decoded value of a `name=value` piece of a form; a
/// piece without `=` is no field.
pub open spec fn field_of(piece: Seq<char>) -> Option<(Seq<char>, Seq<char>)> {
    let e = first_index(piece, '=');
    if e < 0 {
        None
    } else {
        Some((piece.subrange(0, e), decode_form_value(piece.subrange(e + 1, piece.len() as int))))
    }
}

/// The list chosen in a form: the value of its last `list_id` field, or 0
/// where that is not a number or there is none.
pub open spec fn form_list_id(pieces: Seq<Seq<char>>) -> usize
    decreases pieces.len(),
{
    if pieces.len() == 0 {
        0
    } else {
        match field_of(pieces.last()) {
            Some((k, v)) if k == "list_id"@ => match parse_usize_spec(v) {
                Some(n) => n,
                None => 0,
            },
            _ => form_list_id(pieces.drop_last()),
        }
    }
}

/// The values of a form's `ingredients` fields, in order.
pub open spec fn form_ingredients(pieces: Seq<Seq<char>>) -> Seq<Seq<char>>
    decreases pieces.len(),
{
    if pieces.len() == 0 {
        Seq::empty()
    } else {
        let r = form_ingredients(pieces.drop_last());
        match field_of(pieces.last()) {
            Some((k, v)) if k == "ingredients"@ => r.push(v),
            _ => r,
        }
    }
}

/// The text of a request body: its characters where it is valid UTF-8,
/// else nothing.
pub open spec fn body_text(body: Seq<u8>) -> Seq<char> {
    if valid_utf8(body) {
        decode_utf8(body)
    } else {
        Seq::empty()
    }
}

/// Relies on std::str::from_utf8: it succeeds exactly on valid UTF-8 and
/// then holds the decoded characters.
#[verifier::external_body]
fn utf8_text(bytes: &[u8]) -> (r: Option<String>)
    ensures
        match r {
            Some(t) => valid_utf8(bytes@) && t@ == decode_utf8(bytes@),
            None => !valid_utf8(bytes@),
        },
{
    match std::str::from_utf8(bytes) {
        Ok(t) => Some(t.to_string()),
        Err(_) => None,
    }
}

/// Splits a `name=value` piece of a form at its first `=` and decodes the
/// value.
pub fn split_field(piece: &str) -> (r: Option<(String, String)>)
    ensures
        match field_of(piece@) {
            Some((k, v)) => r matches Some(p) && p.0@ == k && p.1@ == v,
            None => r is None,
        },
{
    let n = piece.unicode_len();
    let mut e: usize = 0;
    while e < n && piece.get_char(e) != '='
        invariant
            n == piece@.len(),
            e <= n,
            forall|m: int| 0 <= m < e ==> piece@[m] != '=',
        decreases n - e,
    {
        e = e + 1;
    }
    proof {
        lemma_first_index(piece@, '=', e as int);
    }
    if e == n {
        return None;
    }
    let key = String::from_str(piece.substring_char(0, e));
    let value = decode_form_value_exec(piece.substring_char(e + 1, n));
    Some((key, value))
}

/// The fields of a checkbox form: the chosen list and the ticked
/// ingredients.
#[derive(Debug)]
pub struct CheckboxFormData {
    pub list_id: usize,
    pub ingredients: Vec<String>,
}

/// Takes one piece of a form into the fields read so far from `done`.
fn take_piece(
    piece: &str,
    list_id: &mut usize,
    ingredients: &mut Vec<String>,
    Ghost(done): Ghost<Seq<Seq<char>>>,
)
    requires
        *old(list_id) == form_list_id(done),
        old(ingredients)@.map_values(|t: String| t@) == form_ingredients(done),
    ensures
        *final(list_id) == form_list_id(done.push(piece@)),
        final(ingredients)@.map_values(|t: String| t@) == form_ingredients(done.push(piece@)),
{
    let ghost next = done.push(piece@);
    assert(next.drop_last() =~= done);
    match split_field(piece) {
        Some((key, value)) => {
            if str_equals(key.as_str(), "list_id") {
                *list_id = match parse_usize(value.as_str()) {
                    Some(v) => v,
                    None => 0,
                };
            }
            if str_equals(key.as_str(), "ingredients") {
                let ghost old_ing = ingredients@;
                ingredients.push(value);
                assert(ingredients@.map_values(|t: String| t@) =~= old_ing.map_values(
                    |t: String| t@,
                ).push(ingredients@.last()@));
            }
        },
        None => {},
    }
}

/// Reads a submitted checkbox form: `&`-separated `name=value` fields, whose
/// values have `+` and `%20` read as spaces. The last `list_id` field gives
/// the list (0 where it is not a number, or missing), and every
/// `ingredients` field gives an ingredient; other fields and pieces without
/// `=` are passed over. A body that is not UTF-8 reads as empty.
pub fn parse_checkbox_form(body: &[u8]) -> (r: CheckboxFormData)
    ensures
        r.list_id == form_list_id(split_on(body_text(body@), '&')),
        r.ingredients@.map_values(|t: String| t@) == form_ingredients(
            split_on(body_text(body@), '&'),
        ),
{
    let text = match utf8_text(body) {
        Some(t) => t,
        None => String::new(),
    };
    let s = text.as_str();
    assert(s@ == body_text(body@));
    let n = s.unicode_len();
    let mut list_id: usize = 0;
    let mut ingredients: Vec<String> = Vec::new();
    let mut start: usize = 0;
    let mut i: usize = 0;
    let ghost mut done: Seq<Seq<char>> = Seq::empty();
    assert(s@.subrange(0, 0) =~= Seq::<char>::empty());
    assert(split_on(Seq::<char>::empty(), '&') == seq![Seq::<char>::empty()]);
    assert(done.push(s@.subrange(0, 0)) =~= seq![Seq::<char>::empty()]);
    assert(ingredients@.map_values(|t: String| t@) =~= Seq::<Seq<char>>::empty());
    while i < n
        invariant
            n == s@.len(),
            start <= i <= n,
            split_on(s@.subrange(0, i as int), '&') == done.push(
                s@.subrange(start as int, i as int),
            ),
            list_id == form_list_id(done),
            ingredients@.map_values(|t: String| t@) == form_ingredients(done),
        decreases n - i,
    {
        let ghost next = s@.subrange(0, i + 1);
        assert(next.drop_last() =~= s@.subrange(0, i as int));
        if s.get_char(i) == '&' {
            let piece = s.substring_char(start, i);
            take_piece(piece, &mut list_id, &mut ingredients, Ghost(done));
            proof {
                done = done.push(piece@);
                assert(s@.subrange(i + 1, i + 1) =~= Seq::<char>::empty());
            }
            start = i + 1;
        } else {
            proof {
                assert(s@.subrange(start as int, i + 1) =~= s@.subrange(start as int, i as int).push(
                    s@[i as int],
                ));
                assert(done.push(s@.subrange(start as int, i + 1)) =~= done.push(
                    s@.subrange(start as int, i as int),
                ).update(done.len() as int, s@.subrange(start as int, i as int).push(s@[i as int])));
            }
        }
        i = i + 1;
    }
    assert(s@.subrange(0, n as int) =~= s@);
    let piece = s.substring_char(start, n);
    take_piece(piece, &mut list_id, &mut ingredients, Ghost(done));
    CheckboxFormData { list_id, ingredients }
}

} // verus!
