//! RDF formats, by their names.

use oxrdfio::JsonLdProfileSet;
use vstd::prelude::*;

verus! {

/// Declares sets of JSON-LD profiles.
#[verifier::external_type_specification]
#[verifier::external_body]
pub struct ExJsonLdProfileSet(JsonLdProfileSet);

/// An RDF format.
pub enum RdfFormat {
    /// N3.
    N3,
    /// N-Quads.
    NQuads,
    /// N-Triples.
    NTriples,
    /// RDF/XML.
    RdfXml,
    /// TriG.
    TriG,
    /// Turtle.
    Turtle,
    /// JSON-LD, with profiles.
    JsonLd(JsonLdProfileSet),
}

/// The IRIs of a set of JSON-LD profiles.
pub uninterp spec fn profile_iris(profile: JsonLdProfileSet) -> Set<Seq<char>>;

/// No IRI.
pub open spec fn no_iris() -> Set<Seq<char>> {
    Set::empty()
}

/// What an RDF format is.
pub enum FormatKind {
    /// N3.
    N3,
    /// N-Quads.
    NQuads,
    /// N-Triples.
    NTriples,
    /// RDF/XML.
    RdfXml,
    /// TriG.
    TriG,
    /// Turtle.
    Turtle,
    /// JSON-LD, with the IRIs of its profiles.
    JsonLd(Set<Seq<char>>),
}

impl View for RdfFormat {
    type V = FormatKind;

    open spec fn view(&self) -> FormatKind {
        match self {
            RdfFormat::N3 => FormatKind::N3,
            RdfFormat::NQuads => FormatKind::NQuads,
            RdfFormat::NTriples => FormatKind::NTriples,
            RdfFormat::RdfXml => FormatKind::RdfXml,
            RdfFormat::TriG => FormatKind::TriG,
            RdfFormat::Turtle => FormatKind::Turtle,
            RdfFormat::JsonLd(profile) => FormatKind::JsonLd(profile_iris(*profile)),
        }
    }
}

/// Why there is no format for a name.
#[derive(Clone, Copy, Debug, PartialEq, Eq, Structural)]
pub enum FormatError {
    /// A path has no extension.
    NoExtension,
    /// An extension is not that of a format.
    UnknownExtension,
    /// A name is neither an extension nor a media type of a format.
    UnknownName,
}

/// A letter of the ASCII alphabet in lower case, or any other character.
pub open spec fn lower(c: char) -> char {
    if 'A' <= c <= 'Z' {
        ((c as u32) + 32) as char
    } else {
        c
    }
}

/// Whether texts are the same, whatever the case of their ASCII letters.
pub open spec fn same_ignoring_case(a: Seq<char>, b: Seq<char>) -> bool {
    a.len() == b.len() && forall|i: int| 0 <= i < a.len() ==> lower(#[trigger] a[i]) == lower(b[i])
}

/// The format of an extension.
pub open spec fn extension_kind(extension: Seq<char>) -> Option<FormatKind> {
    if same_ignoring_case(extension, "json"@) || same_ignoring_case(extension, "jsonld"@) {
        Some(FormatKind::JsonLd(no_iris()))
    } else if same_ignoring_case(extension, "n3"@) {
        Some(FormatKind::N3)
    } else if same_ignoring_case(extension, "nq"@) {
        Some(FormatKind::NQuads)
    } else if same_ignoring_case(extension, "nt"@) || same_ignoring_case(extension, "txt"@) {
        Some(FormatKind::NTriples)
    } else if same_ignoring_case(extension, "rdf"@) || same_ignoring_case(extension, "xml"@) {
        Some(FormatKind::RdfXml)
    } else if same_ignoring_case(extension, "trig"@) {
        Some(FormatKind::TriG)
    } else if same_ignoring_case(extension, "ttl"@) {
        Some(FormatKind::Turtle)
    } else {
        None
    }
}

/// Whether a character is white space.
pub open spec fn is_space(c: char) -> bool {
    let code = c as u32;
    ||| 0x9 <= code <= 0xd
    ||| code == 0x20
    ||| code == 0x85
    ||| code == 0xa0
    ||| code == 0x1680
    ||| 0x2000 <= code <= 0x200a
    ||| code == 0x2028
    ||| code == 0x2029
    ||| code == 0x202f
    ||| code == 0x205f
    ||| code == 0x3000
}

/// A text without the white space around it.
pub open spec fn trimmed(text: Seq<char>) -> Seq<char>
    decreases text.len(),
{
    if text.len() > 0 && is_space(text[0]) {
        trimmed(text.drop_first())
    } else if text.len() > 0 && is_space(text.last()) {
        trimmed(text.drop_last())
    } else {
        text
    }
}

/// The position of the first character of a kind, from a position on, or the length of the text.
pub open spec fn next_char(text: Seq<char>, c: char, from: int) -> int
    decreases text.len() - from,
{
    if from >= text.len() || text[from] == c {
        from
    } else {
        next_char(text, c, from + 1)
    }
}

/// Whether the parameter of a media type at a place is a profile that is a lone quote.
pub open spec fn is_lone_quote(text: Seq<char>, from: int, to: int) -> bool {
    let equals = next_char(text, '=', from);
    &&& equals < to
    &&& trimmed(text.subrange(from, equals)) == "profile"@
    &&& trimmed(text.subrange(equals + 1, to)) == "\""@
}

/// Whether one of the parameters of a media type, from a position on, is a profile that is a lone
/// quote.
pub open spec fn some_lone_quote(text: Seq<char>, from: int) -> bool
    decreases text.len() - from,
{
    let to = next_char(text, ';', from);
    ||| is_lone_quote(text, from, to)
    ||| from <= to < text.len() && some_lone_quote(text, to + 1)
}

/// Whether one of the parameters of a media type is a profile that is a lone quote.
pub open spec fn has_lone_quote(media_type: Seq<char>) -> bool {
    let start = next_char(media_type, ';', 0);
    start < media_type.len() && some_lone_quote(media_type, start + 1)
}

/// The format of a media subtype, without the prefix of those that are not registered.
pub open spec fn subtype_kind(subtype: Seq<char>) -> Option<FormatKind> {
    if same_ignoring_case(subtype, "activity+json"@) || same_ignoring_case(subtype, "json"@)
        || same_ignoring_case(subtype, "ld+json"@) || same_ignoring_case(subtype, "jsonld"@) {
        Some(FormatKind::JsonLd(no_iris()))
    } else if same_ignoring_case(subtype, "n-quads"@) || same_ignoring_case(subtype, "nquads"@) {
        Some(FormatKind::NQuads)
    } else if same_ignoring_case(subtype, "n-triples"@) || same_ignoring_case(
        subtype,
        "ntriples"@,
    ) || same_ignoring_case(subtype, "plain"@) {
        Some(FormatKind::NTriples)
    } else if same_ignoring_case(subtype, "n3"@) {
        Some(FormatKind::N3)
    } else if same_ignoring_case(subtype, "rdf+xml"@) || same_ignoring_case(subtype, "xml"@) {
        Some(FormatKind::RdfXml)
    } else if same_ignoring_case(subtype, "trig"@) {
        Some(FormatKind::TriG)
    } else if same_ignoring_case(subtype, "turtle"@) {
        Some(FormatKind::Turtle)
    } else {
        None
    }
}

/// A media subtype without the prefix of those that are not registered.
pub open spec fn registered(subtype: Seq<char>) -> Seq<char> {
    if subtype.len() >= 2 && subtype[0] == 'x' && subtype[1] == '-' {
        subtype.skip(2)
    } else {
        subtype
    }
}

/// The format of a media type that has no parameters.
pub open spec fn plain_kind(media_type: Seq<char>) -> Option<FormatKind> {
    let slash = next_char(media_type, '/', 0);
    if slash >= media_type.len() {
        None
    } else {
        let name = trimmed(media_type.take(slash));
        if same_ignoring_case(name, "application"@) || same_ignoring_case(name, "text"@) {
            subtype_kind(registered(trimmed(media_type.skip(slash + 1))))
        } else {
            None
        }
    }
}

/// Whether formats are the same, but for the profiles of JSON-LD.
pub open spec fn same_but_profiles(a: FormatKind, b: FormatKind) -> bool {
    a == b || (a is JsonLd && b is JsonLd)
}

/// Whether the format of a media type agrees with its type and subtype: it is theirs if it has no
/// parameters. Parameters can only give profiles, or make the format unknown.
pub open spec fn agrees(media_type: Seq<char>, kind: Option<FormatKind>) -> bool {
    let end = next_char(media_type, ';', 0);
    match plain_kind(media_type.take(end)) {
        None => kind is None,
        Some(plain) => {
            &&& end == media_type.len() ==> kind == Some(plain)
            &&& kind matches Some(kind) ==> same_but_profiles(kind, plain)
        },
    }
}

/// What a format that may be missing is.
pub open spec fn kind_of(format: Option<RdfFormat>) -> Option<FormatKind> {
    match format {
        None => None,
        Some(format) => Some(format@),
    }
}

/// The format of a media type.
pub uninterp spec fn media_type_kind(media_type: Seq<char>) -> Option<FormatKind>;

/// `RdfFormat::from_extension`: the format of an extension, whatever the case of its letters.
/// JSON-LD comes without profiles.
#[verifier::external_body]
pub(crate) fn from_extension(extension: &str) -> (format: Option<RdfFormat>)
    ensures
        match extension_kind(extension@) {
            None => format is None,
            Some(kind) => format matches Some(f) && f@ == kind,
        },
        format matches Some(RdfFormat::JsonLd(profile)) ==> no_iris() == profile_iris(profile),
{
    match oxrdfio::RdfFormat::from_extension(extension)? {
        oxrdfio::RdfFormat::N3 => Some(RdfFormat::N3),
        oxrdfio::RdfFormat::NQuads => Some(RdfFormat::NQuads),
        oxrdfio::RdfFormat::NTriples => Some(RdfFormat::NTriples),
        oxrdfio::RdfFormat::RdfXml => Some(RdfFormat::RdfXml),
        oxrdfio::RdfFormat::TriG => Some(RdfFormat::TriG),
        oxrdfio::RdfFormat::Turtle => Some(RdfFormat::Turtle),
        oxrdfio::RdfFormat::JsonLd { profile } => Some(RdfFormat::JsonLd(profile)),
        _ => None,
    }
}

/// `RdfFormat::from_media_type`: the format of a media type, with the profiles that JSON-LD comes
/// with. Its type and subtype decide, whatever the case of their letters and with white space
/// around them, and nothing else if there are no parameters. No parameter may be a profile that is
/// a lone quote.
#[verifier::external_body]
pub(crate) fn from_media_type(media_type: &str) -> (format: Option<RdfFormat>)
    requires
        !has_lone_quote(media_type@),
    ensures
        kind_of(format) == media_type_kind(media_type@),
        agrees(media_type@, kind_of(format)),
{
    match oxrdfio::RdfFormat::from_media_type(media_type)? {
        oxrdfio::RdfFormat::N3 => Some(RdfFormat::N3),
        oxrdfio::RdfFormat::NQuads => Some(RdfFormat::NQuads),
        oxrdfio::RdfFormat::NTriples => Some(RdfFormat::NTriples),
        oxrdfio::RdfFormat::RdfXml => Some(RdfFormat::RdfXml),
        oxrdfio::RdfFormat::TriG => Some(RdfFormat::TriG),
        oxrdfio::RdfFormat::Turtle => Some(RdfFormat::Turtle),
        oxrdfio::RdfFormat::JsonLd { profile } => Some(RdfFormat::JsonLd(profile)),
        _ => None,
    }
}

/// The characters of a text.
fn chars_of(text: &str) -> (chars: Vec<char>)
    ensures
        chars@ == text@,
{
    let len: usize = text.unicode_len();
    let mut chars: Vec<char> = Vec::new();
    let mut i: usize = 0;
    while i < len
        invariant
            i <= len == text@.len(),
            chars@ == text@.take(i as int),
        decreases len - i,
    {
        chars.push(text.get_char(i));
        i = i + 1;
        assert(chars@ =~= text@.take(i as int));
    }
    assert(chars@ =~= text@);
    chars
}

fn find_char(chars: &Vec<char>, c: char, from: usize) -> (position: usize)
    requires
        from <= chars@.len(),
    ensures
        position == next_char(chars@, c, from as int),
        from <= position <= chars@.len(),
{
    let mut i: usize = from;
    while i < chars.len() && chars[i] != c
        invariant
            from <= i <= chars@.len(),
            next_char(chars@, c, from as int) == next_char(chars@, c, i as int),
        decreases chars@.len() - i,
    {
        i = i + 1;
    }
    i
}

fn space(c: char) -> (space: bool)
    ensures
        space == is_space(c),
{
    let code: u32 = c as u32;
    (0x9 <= code && code <= 0xd) || code == 0x20 || code == 0x85 || code == 0xa0 || code == 0x1680
        || (0x2000 <= code && code <= 0x200a) || code == 0x2028 || code == 0x2029 || code == 0x202f
        || code == 0x205f || code == 0x3000
}

/// Whether a part of a text is a word, with white space around it.
fn is_word(chars: &Vec<char>, from: usize, to: usize, word: &str) -> (same: bool)
    requires
        from <= to <= chars@.len(),
    ensures
        same == (trimmed(chars@.subrange(from as int, to as int)) == word@),
{
    let ghost whole = trimmed(chars@.subrange(from as int, to as int));
    let mut start: usize = from;
    let mut end: usize = to;
    while start < end && space(chars[start])
        invariant
            from <= start <= end == to <= chars@.len(),
            whole == trimmed(chars@.subrange(start as int, end as int)),
        decreases end - start,
    {
        assert(chars@.subrange(start as int, end as int).drop_first() =~= chars@.subrange(
            start + 1,
            end as int,
        ));
        start = start + 1;
    }
    while start < end && space(chars[end - 1])
        invariant
            from <= start <= end <= chars@.len(),
            start < end ==> !is_space(chars@[start as int]),
            whole == trimmed(chars@.subrange(start as int, end as int)),
        decreases end - start,
    {
        assert(chars@.subrange(start as int, end as int).drop_last() =~= chars@.subrange(
            start as int,
            end - 1,
        ));
        end = end - 1;
    }
    let ghost rest = chars@.subrange(start as int, end as int);
    assert(whole == rest);
    let len: usize = word.unicode_len();
    if len != end - start {
        return false;
    }
    let mut i: usize = 0;
    while i < len
        invariant
            i <= len == word@.len(),
            rest == chars@.subrange(start as int, end as int),
            whole == rest,
            whole == trimmed(chars@.subrange(from as int, to as int)),
            start + len == end <= chars@.len(),
            forall|j: int| 0 <= j < i ==> rest[j] == word@[j],
        decreases len - i,
    {
        if chars[start + i] != word.get_char(i) {
            assert(rest[i as int] != word@[i as int]);
            return false;
        }
        i = i + 1;
    }
    assert(rest =~= word@);
    true
}

/// Whether one of the parameters of a media type is a profile that is a lone quote.
fn quote_alone(media_type: &str) -> (found: bool)
    ensures
        found == has_lone_quote(media_type@),
{
    let chars: Vec<char> = chars_of(media_type);
    let mut to: usize = find_char(&chars, ';', 0);
    let ghost start = to as int;
    while to < chars.len()
        invariant
            chars@ == media_type@,
            to <= chars@.len(),
            start == next_char(chars@, ';', 0),
            start <= to,
            has_lone_quote(chars@) == (to < chars@.len() && some_lone_quote(chars@, to + 1)),
        decreases chars@.len() - to,
    {
        let from: usize = to + 1;
        to = find_char(&chars, ';', from);
        let equals: usize = find_char(&chars, '=', from);
        if equals < to && is_word(&chars, from, equals, "profile") && is_word(
            &chars,
            equals + 1,
            to,
            "\"",
        ) {
            return true;
        }
    }
    false
}

/// What a function says of the extension of a path, if the path has one.
pub fn format_from_path<'a, T, F: FnOnce(&'a str) -> Option<T>>(
    extension: Option<&'a str>,
    from_extension: F,
) -> (res: Result<T, FormatError>)
    requires
        extension matches Some(extension) ==> call_requires(from_extension, (extension,)),
    ensures
        match extension {
            None => res is Err && res->Err_0 == FormatError::NoExtension,
            Some(extension) => match res {
                Ok(format) => call_ensures(from_extension, (extension,), Some(format)),
                Err(e) => e == FormatError::UnknownExtension && call_ensures(
                    from_extension,
                    (extension,),
                    None::<T>,
                ),
            },
        },
{
    match extension {
        None => Err(FormatError::NoExtension),
        Some(extension) => match from_extension(extension) {
            None => Err(FormatError::UnknownExtension),
            Some(format) => Ok(format),
        },
    }
}

/// The format of a path, of which the extension is given, if it has one.
pub fn rdf_format_from_path(extension: Option<&str>) -> (res: Result<RdfFormat, FormatError>)
    ensures
        match extension {
            None => res is Err && res->Err_0 == FormatError::NoExtension,
            Some(extension) => match extension_kind(extension@) {
                None => res is Err && res->Err_0 == FormatError::UnknownExtension,
                Some(kind) => res matches Ok(format) && format@ == kind,
            },
        },
{
    format_from_path(extension, from_extension)
}

/// The format of a file, of which the last extension and the one before it are given, if it has
/// them: that of the last one, or of the one before if the last one is that of a compression.
pub fn guessed_format(last: Option<&str>, before: Option<&str>) -> (res: Result<
    RdfFormat,
    FormatError,
>)
    ensures
        match last {
            None => res is Err && res->Err_0 == FormatError::NoExtension,
            Some(last) => match extension_kind(last@) {
                Some(kind) => res matches Ok(format) && format@ == kind,
                None => match before {
                    None => res is Err && res->Err_0 == FormatError::UnknownExtension,
                    Some(before) => match extension_kind(before@) {
                        Some(kind) => res matches Ok(format) && format@ == kind,
                        None => res is Err && res->Err_0 == FormatError::UnknownExtension,
                    },
                },
            },
        },
{
    match rdf_format_from_path(last) {
        Err(FormatError::UnknownExtension) => match before {
            None => Err(FormatError::UnknownExtension),
            Some(_) => rdf_format_from_path(before),
        },
        res => res,
    }
}

/// The format of a name: an extension, or else a media type. A media type whose profile is a lone
/// quote is unknown.
pub fn rdf_format_from_name(name: &str) -> (res: Result<RdfFormat, FormatError>)
    ensures
        match extension_kind(name@) {
            Some(kind) => res matches Ok(format) && format@ == kind,
            None => if has_lone_quote(name@) {
                res is Err && res->Err_0 == FormatError::UnknownName
            } else {
                match media_type_kind(name@) {
                    Some(kind) => res matches Ok(format) && format@ == kind,
                    None => res is Err && res->Err_0 == FormatError::UnknownName,
                }
            },
        },
        extension_kind(name@) is None && !has_lone_quote(name@) ==> match res {
            Ok(format) => agrees(name@, Some(format@)),
            Err(_) => agrees(name@, None),
        },
{
    match from_extension(name) {
        Some(format) => Ok(format),
        None => {
            if quote_alone(name) {
                return Err(FormatError::UnknownName);
            }
            match from_media_type(name) {
                Some(format) => Ok(format),
                None => Err(FormatError::UnknownName),
            }
        },
    }
}

proof fn lemma_next_char(text: Seq<char>, c: char, from: int)
    requires
        0 <= from <= text.len(),
    ensures
        from <= next_char(text, c, from) <= text.len(),
        next_char(text, c, from) < text.len() ==> text[next_char(text, c, from)] == c,
        forall|i: int| from <= i < next_char(text, c, from) ==> text[i] != c,
    decreases text.len() - from,
{
    if from < text.len() && text[from] != c {
        lemma_next_char(text, c, from + 1);
    }
}

/// Whether a part of a text is a word with white space around it, which is at a position.
pub open spec fn is_word_at(text: Seq<char>, from: int, to: int, word: Seq<char>, at: int) -> bool {
    &&& from <= at
    &&& at + word.len() <= to
    &&& text.subrange(at, at + word.len()) == word
    &&& forall|i: int| from <= i < at ==> is_space(#[trigger] text[i])
    &&& forall|i: int| at + word.len() <= i < to ==> is_space(#[trigger] text[i])
}

proof fn lemma_trimmed(text: Seq<char>, from: int, to: int) -> (at: int)
    requires
        0 <= from <= to <= text.len(),
    ensures
        is_word_at(text, from, to, trimmed(text.subrange(from, to)), at),
    decreases to - from,
{
    let part = text.subrange(from, to);
    if part.len() > 0 && is_space(part[0]) {
        assert(part.drop_first() =~= text.subrange(from + 1, to));
        let at = lemma_trimmed(text, from + 1, to);
        assert(text[from] == part[0]);
        at
    } else if part.len() > 0 && is_space(part.last()) {
        assert(part.drop_last() =~= text.subrange(from, to - 1));
        let at = lemma_trimmed(text, from, to - 1);
        assert(text[to - 1] == part.last());
        at
    } else {
        from
    }
}

/// A media type is refused for its profile only if, after a semicolon, the word `profile`, an equals
/// sign and a lone quote come, with nothing but white space around them up to the next semicolon or
/// the end.
pub proof fn lemma_lone_quote(media_type: Seq<char>)
    requires
        has_lone_quote(media_type),
    ensures
        exists|from: int, equals: int, to: int, word: int, quote: int|
            {
                &&& 0 < from <= equals < to <= media_type.len()
                &&& media_type[from - 1] == ';'
                &&& media_type[equals] == '='
                &&& to < media_type.len() ==> media_type[to] == ';'
                &&& #[trigger] is_word_at(media_type, from, equals, "profile"@, word)
                &&& #[trigger] is_word_at(media_type, equals + 1, to, "\""@, quote)
            },
{
    let start = next_char(media_type, ';', 0);
    lemma_next_char(media_type, ';', 0);
    lemma_some_lone_quote(media_type, start + 1);
}

proof fn lemma_some_lone_quote(text: Seq<char>, from: int)
    requires
        0 < from <= text.len(),
        text[from - 1] == ';',
        some_lone_quote(text, from),
    ensures
        exists|from: int, equals: int, to: int, word: int, quote: int|
            {
                &&& 0 < from <= equals < to <= text.len()
                &&& text[from - 1] == ';'
                &&& text[equals] == '='
                &&& to < text.len() ==> text[to] == ';'
                &&& #[trigger] is_word_at(text, from, equals, "profile"@, word)
                &&& #[trigger] is_word_at(text, equals + 1, to, "\""@, quote)
            },
    decreases text.len() - from,
{
    let to = next_char(text, ';', from);
    lemma_next_char(text, ';', from);
    if is_lone_quote(text, from, to) {
        let equals = next_char(text, '=', from);
        lemma_next_char(text, '=', from);
        let word = lemma_trimmed(text, from, equals);
        let quote = lemma_trimmed(text, equals + 1, to);
        assert(is_word_at(text, from, equals, "profile"@, word));
        assert(is_word_at(text, equals + 1, to, "\""@, quote));
    } else {
        lemma_some_lone_quote(text, to + 1);
    }
}

} // verus!
