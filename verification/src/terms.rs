//! RDF terms and graph names, and the byte strings that they are stored as.

use crate::bytes::{be_bytes, be_value, push_be, read_be};
use crate::dictionary::TermDictionary;
use crate::strings::{copy_range, string_eq};
use vstd::prelude::*;
use vstd::utf8::{decode_utf8, encode_utf8, valid_utf8};

verus! {

/// The datatype of simple literals.
pub const XSD_STRING: &'static str = "http://www.w3.org/2001/XMLSchema#string";

/// The datatype of literals with a language tag.
pub const RDF_LANG_STRING: &'static str = "http://www.w3.org/1999/02/22-rdf-syntax-ns#langString";

/// The first byte of a named node.
pub const TERM_TYPE_NAMED_NODE: u8 = 1;

/// The first byte of a blank node.
pub const TERM_TYPE_BLANK_NODE: u8 = 2;

/// The first byte of a simple literal.
pub const TERM_TYPE_LITERAL_SIMPLE: u8 = 4;

/// The first byte of a literal with a language tag.
pub const TERM_TYPE_LITERAL_LANGUAGE: u8 = 5;

/// The first byte of a literal with a datatype.
pub const TERM_TYPE_LITERAL_TYPED: u8 = 6;

/// The first byte of a literal with a datatype of the dictionary.
pub const TERM_TYPE_LITERAL_TYPED_IN_DICT: u8 = 7;

/// An RDF literal. Its datatype is [`XSD_STRING`] if it is a simple literal.
#[derive(Clone, Debug, PartialEq, Eq)]
pub struct Literal {
    /// The lexical form.
    pub value: String,
    /// The language tag, if there is one.
    pub language: Option<String>,
    /// The IRI of the datatype.
    pub datatype: String,
}

/// An RDF term.
#[derive(Clone, Debug, PartialEq, Eq)]
pub enum Term {
    /// A named node, by its IRI.
    NamedNode(String),
    /// A blank node, by its identifier.
    BlankNode(String),
    /// A literal.
    Literal(Literal),
}

/// A node that can be the subject of a quad.
#[derive(Clone, Debug, PartialEq, Eq)]
pub enum NamedOrBlankNode {
    /// A named node, by its IRI.
    NamedNode(String),
    /// A blank node, by its identifier.
    BlankNode(String),
}

/// The name of a graph.
#[derive(Clone, Debug, PartialEq, Eq)]
pub enum GraphName {
    /// The default graph.
    DefaultGraph,
    /// A named node, by its IRI.
    NamedNode(String),
    /// A blank node, by its identifier.
    BlankNode(String),
}

/// An RDF quad, with the IRI of its predicate.
#[derive(Clone, Debug, PartialEq, Eq)]
pub struct Quad {
    /// The subject.
    pub subject: NamedOrBlankNode,
    /// The IRI of the predicate.
    pub predicate: String,
    /// The object.
    pub object: Term,
    /// The graph.
    pub graph_name: GraphName,
}

/// What an RDF term is.
pub enum TermView {
    /// A named node.
    NamedNode(Seq<char>),
    /// A blank node.
    BlankNode(Seq<char>),
    /// A literal: its lexical form, language tag and datatype.
    Literal(Seq<char>, Option<Seq<char>>, Seq<char>),
}

/// What the name of a graph is.
pub enum GraphNameView {
    /// The default graph.
    DefaultGraph,
    /// A named node.
    NamedNode(Seq<char>),
    /// A blank node.
    BlankNode(Seq<char>),
}

/// What an RDF quad is.
pub struct QuadView {
    /// The subject.
    pub subject: TermView,
    /// The IRI of the predicate.
    pub predicate: Seq<char>,
    /// The object.
    pub object: TermView,
    /// The graph.
    pub graph_name: GraphNameView,
}

/// What an optional string is.
pub open spec fn option_view(s: Option<String>) -> Option<Seq<char>> {
    match s {
        None => None,
        Some(s) => Some(s@),
    }
}

impl View for Term {
    type V = TermView;

    open spec fn view(&self) -> TermView {
        match self {
            Term::NamedNode(iri) => TermView::NamedNode(iri@),
            Term::BlankNode(id) => TermView::BlankNode(id@),
            Term::Literal(literal) => TermView::Literal(
                literal.value@,
                option_view(literal.language),
                literal.datatype@,
            ),
        }
    }
}

impl View for NamedOrBlankNode {
    type V = TermView;

    open spec fn view(&self) -> TermView {
        match self {
            NamedOrBlankNode::NamedNode(iri) => TermView::NamedNode(iri@),
            NamedOrBlankNode::BlankNode(id) => TermView::BlankNode(id@),
        }
    }
}

impl View for GraphName {
    type V = GraphNameView;

    open spec fn view(&self) -> GraphNameView {
        match self {
            GraphName::DefaultGraph => GraphNameView::DefaultGraph,
            GraphName::NamedNode(iri) => GraphNameView::NamedNode(iri@),
            GraphName::BlankNode(id) => GraphNameView::BlankNode(id@),
        }
    }
}

impl View for Quad {
    type V = QuadView;

    open spec fn view(&self) -> QuadView {
        QuadView {
            subject: self.subject@,
            predicate: self.predicate@,
            object: self.object@,
            graph_name: self.graph_name@,
        }
    }
}

/// Why a term could not be stored or read back.
#[derive(Clone, Copy, Debug, PartialEq, Eq, Structural)]
pub enum TermError {
    /// A language tag is 2^16 bytes or longer.
    LanguageTooLong,
    /// A literal has both a language and a datatype that is not that of such literals.
    LanguageAndDatatype,
    /// The empty string is not a term.
    Empty,
    /// A string is not valid UTF-8.
    NonUtf8,
    /// A string is too short for what its first byte says.
    TooShort,
    /// A length within a string is larger than what it is the length of.
    InconsistentLength,
    /// The datatype is in a dictionary, but there is none.
    NoDictionary,
    /// There is no such datatype in the dictionary.
    InvalidDatatypeId,
    /// The dictionary has too many datatypes.
    TooManyDatatypes,
    /// The dictionary ends before its datatype does.
    TruncatedDictionary,
    /// The first byte is that of no term.
    UnknownTag,
}

/// A string with a byte in front of it.
pub open spec fn tagged(tag: u8, text: Seq<char>) -> Seq<u8> {
    seq![tag] + encode_utf8(text)
}

/// The bytes that a term is stored as. `dictionary` is the lookup of a datatype in the dictionary,
/// if there is one.
pub open spec fn serialized_term(
    term: TermView,
    dictionary: Option<TermDictionary>,
) -> Result<Seq<u8>, TermError> {
    match term {
        TermView::NamedNode(iri) => Ok(tagged(TERM_TYPE_NAMED_NODE, iri)),
        TermView::BlankNode(id) => Ok(tagged(TERM_TYPE_BLANK_NODE, id)),
        TermView::Literal(value, None, datatype) => if datatype == XSD_STRING@ {
            Ok(tagged(TERM_TYPE_LITERAL_SIMPLE, value))
        } else {
            let id = match dictionary {
                None => Ok(None),
                Some(dictionary) => dictionary.datatype_id(datatype),
            };
            match id {
                Err(e) => Err(e),
                Ok(Some(id)) => Ok(
                    tagged(TERM_TYPE_LITERAL_TYPED_IN_DICT, value) + be_bytes(id as nat, 4),
                ),
                Ok(None) => Ok(
                    tagged(TERM_TYPE_LITERAL_TYPED, value) + encode_utf8(datatype) + be_bytes(
                        encode_utf8(datatype).len(),
                        usize::BITS as nat / 8,
                    ),
                ),
            }
        },
        TermView::Literal(value, Some(language), datatype) => if datatype != RDF_LANG_STRING@ {
            Err(TermError::LanguageAndDatatype)
        } else if encode_utf8(language).len() > u16::MAX {
            Err(TermError::LanguageTooLong)
        } else {
            Ok(
                tagged(TERM_TYPE_LITERAL_LANGUAGE, language) + encode_utf8(value) + be_bytes(
                    encode_utf8(language).len(),
                    2,
                ),
            )
        },
    }
}

/// The text that bytes stand for.
pub open spec fn text_of(bytes: Seq<u8>) -> Result<Seq<char>, TermError> {
    if valid_utf8(bytes) {
        Ok(decode_utf8(bytes))
    } else {
        Err(TermError::NonUtf8)
    }
}

/// The literal with a value and a language tag, or a datatype, that bytes stand for.
pub open spec fn literal_of(value: Seq<u8>, language: Option<Seq<u8>>, datatype: Seq<u8>) -> Result<
    TermView,
    TermError,
> {
    match text_of(value) {
        Err(e) => Err(e),
        Ok(value) => match language {
            Some(language) => match text_of(language) {
                Err(e) => Err(e),
                Ok(language) => Ok(
                    TermView::Literal(value, Some(language), RDF_LANG_STRING@),
                ),
            },
            None => match text_of(datatype) {
                Err(e) => Err(e),
                Ok(datatype) => Ok(TermView::Literal(value, None, datatype)),
            },
        },
    }
}

/// The term that bytes stand for.
pub open spec fn deserialized_term(bytes: Seq<u8>, dictionary: Option<TermDictionary>) -> Result<
    TermView,
    TermError,
> {
    let n = bytes.len() as int;
    if n == 0 {
        Err(TermError::Empty)
    } else if bytes[0] == TERM_TYPE_NAMED_NODE {
        match text_of(bytes.skip(1)) {
            Err(e) => Err(e),
            Ok(iri) => Ok(TermView::NamedNode(iri)),
        }
    } else if bytes[0] == TERM_TYPE_BLANK_NODE {
        match text_of(bytes.skip(1)) {
            Err(e) => Err(e),
            Ok(id) => Ok(TermView::BlankNode(id)),
        }
    } else if bytes[0] == TERM_TYPE_LITERAL_SIMPLE {
        match text_of(bytes.skip(1)) {
            Err(e) => Err(e),
            Ok(value) => Ok(TermView::Literal(value, None, XSD_STRING@)),
        }
    } else if bytes[0] == TERM_TYPE_LITERAL_LANGUAGE {
        if n < 2 {
            Err(TermError::TooShort)
        } else {
            let len = be_value(bytes.skip(n - 2)) as int;
            if 1 + len > n - 2 {
                Err(TermError::InconsistentLength)
            } else {
                literal_of(
                    bytes.subrange(1 + len, n - 2),
                    Some(bytes.subrange(1, 1 + len)),
                    Seq::empty(),
                )
            }
        }
    } else if bytes[0] == TERM_TYPE_LITERAL_TYPED_IN_DICT {
        if n < 4 {
            Err(TermError::TooShort)
        } else {
            match dictionary {
                None => Err(TermError::NoDictionary),
                Some(dictionary) => match dictionary.datatype(be_value(bytes.skip(n - 4))) {
                    Err(e) => Err(e),
                    Ok(datatype) => if n < 5 {
                        Err(TermError::InconsistentLength)
                    } else {
                        match text_of(bytes.subrange(1, n - 4)) {
                            Err(e) => Err(e),
                            Ok(value) => Ok(TermView::Literal(value, None, datatype)),
                        }
                    },
                },
            }
        }
    } else if bytes[0] == TERM_TYPE_LITERAL_TYPED {
        let width = usize::BITS as int / 8;
        if n < width {
            Err(TermError::TooShort)
        } else {
            let start = n - width - be_value(bytes.skip(n - width));
            if start < 1 {
                Err(TermError::InconsistentLength)
            } else {
                literal_of(bytes.subrange(1, start), None, bytes.subrange(start, n - width))
            }
        }
    } else {
        Err(TermError::UnknownTag)
    }
}

/// `String::from_utf8`: the text that bytes stand for, or `None` (an error of the standard library)
/// if they are not valid UTF-8.
#[verifier::external_body]
pub(crate) fn string_from_utf8(bytes: Vec<u8>) -> (text: Option<String>)
    ensures
        text is Some <==> valid_utf8(bytes@),
        text matches Some(s) ==> s@ == decode_utf8(bytes@),
{
    String::from_utf8(bytes).ok()
}

/// The text that a part of a string stands for.
pub(crate) fn read_text(bytes: &[u8], from: usize, to: usize) -> (res: Result<String, TermError>)
    requires
        from <= to <= bytes@.len(),
    ensures
        match text_of(bytes@.subrange(from as int, to as int)) {
            Err(e) => res is Err && res->Err_0 == e,
            Ok(text) => res matches Ok(s) && s@ == text,
        },
{
    match string_from_utf8(copy_range(bytes, from, to)) {
        None => Err(TermError::NonUtf8),
        Some(text) => Ok(text),
    }
}

/// Whether two texts are the same.
pub(crate) fn text_eq(a: &str, b: &str) -> (eq: bool)
    ensures
        eq == (a@ == b@),
{
    proof {
        vstd::utf8::encode_utf8_decode_utf8(a@);
        vstd::utf8::encode_utf8_decode_utf8(b@);
    }
    string_eq(a.as_bytes(), b.as_bytes())
}

pub(crate) fn push_text(out: &mut Vec<u8>, text: &str)
    ensures
        final(out)@ == old(out)@ + encode_utf8(text@),
{
    out.extend_from_slice(text.as_bytes());
    assert(out@ =~= old(out)@ + encode_utf8(text@));
}

fn with_tag(tag: u8, text: &str) -> (out: Vec<u8>)
    ensures
        out@ == tagged(tag, text@),
{
    let mut out: Vec<u8> = Vec::new();
    out.push(tag);
    push_text(&mut out, text);
    assert(out@ =~= tagged(tag, text@));
    out
}

/// The bytes that a term is stored as.
pub fn serialize_term(term: &Term, dictionary: Option<&TermDictionary>) -> (res: Result<
    Vec<u8>,
    TermError,
>)
    requires
        dictionary matches Some(dictionary) ==> dictionary.well_formed(),
    ensures
        match serialized_term(term@, dictionary_view(dictionary)) {
            Err(e) => res is Err && res->Err_0 == e,
            Ok(bytes) => res matches Ok(v) && v@ == bytes,
        },
{
    match term {
        Term::NamedNode(iri) => Ok(with_tag(TERM_TYPE_NAMED_NODE, iri.as_str())),
        Term::BlankNode(id) => Ok(with_tag(TERM_TYPE_BLANK_NODE, id.as_str())),
        Term::Literal(literal) => match &literal.language {
            None => {
                if text_eq(literal.datatype.as_str(), XSD_STRING) {
                    return Ok(with_tag(TERM_TYPE_LITERAL_SIMPLE, literal.value.as_str()));
                }
                let id: Option<u32> = match dictionary {
                    None => None,
                    Some(dictionary) => dictionary.get_datatype_id(literal.datatype.as_str())?,
                };
                match id {
                    Some(id) => {
                        let mut out: Vec<u8> = with_tag(
                            TERM_TYPE_LITERAL_TYPED_IN_DICT,
                            literal.value.as_str(),
                        );
                        push_be(&mut out, id as u64, 4);
                        Ok(out)
                    },
                    None => {
                        let mut out: Vec<u8> = with_tag(
                            TERM_TYPE_LITERAL_TYPED,
                            literal.value.as_str(),
                        );
                        push_text(&mut out, literal.datatype.as_str());
                        let len: usize = literal.datatype.as_str().as_bytes().len();
                        push_be(&mut out, len as u64, (usize::BITS / 8) as usize);
                        Ok(out)
                    },
                }
            },
            Some(language) => {
                if !text_eq(literal.datatype.as_str(), RDF_LANG_STRING) {
                    return Err(TermError::LanguageAndDatatype);
                }
                let len: usize = language.as_str().as_bytes().len();
                if len > u16::MAX as usize {
                    return Err(TermError::LanguageTooLong);
                }
                let mut out: Vec<u8> = with_tag(TERM_TYPE_LITERAL_LANGUAGE, language.as_str());
                push_text(&mut out, literal.value.as_str());
                push_be(&mut out, len as u64, 2);
                Ok(out)
            },
        },
    }
}

/// A dictionary, if there is one.
pub open spec fn dictionary_view(dictionary: Option<&TermDictionary>) -> Option<TermDictionary> {
    match dictionary {
        None => None,
        Some(dictionary) => Some(*dictionary),
    }
}

fn new_string(text: &str) -> (s: String)
    ensures
        s@ == text@,
{
    text.to_string()
}

/// The term that bytes stand for.
pub fn deserialize_term(bytes: &[u8], dictionary: Option<&TermDictionary>) -> (res: Result<
    Term,
    TermError,
>)
    requires
        dictionary matches Some(dictionary) ==> dictionary.well_formed(),
    ensures
        match deserialized_term(bytes@, dictionary_view(dictionary)) {
            Err(e) => res is Err && res->Err_0 == e,
            Ok(term) => res matches Ok(t) && t@ == term,
        },
{
    let n: usize = bytes.len();
    if n == 0 {
        return Err(TermError::Empty);
    }
    let tag: u8 = bytes[0];
    assert(bytes@.subrange(1, n as int) =~= bytes@.skip(1));
    if tag == TERM_TYPE_NAMED_NODE {
        Ok(Term::NamedNode(read_text(bytes, 1, n)?))
    } else if tag == TERM_TYPE_BLANK_NODE {
        Ok(Term::BlankNode(read_text(bytes, 1, n)?))
    } else if tag == TERM_TYPE_LITERAL_SIMPLE {
        let value: String = read_text(bytes, 1, n)?;
        Ok(Term::Literal(Literal { value, language: None, datatype: new_string(XSD_STRING) }))
    } else if tag == TERM_TYPE_LITERAL_LANGUAGE {
        if n < 2 {
            return Err(TermError::TooShort);
        }
        assert(bytes@.subrange(n - 2, n as int) =~= bytes@.skip(n - 2));
        let len: u64 = read_be(bytes, n - 2, 2);
        if len >= (n - 2) as u64 {
            return Err(TermError::InconsistentLength);
        }
        let start: usize = 1 + len as usize;
        let value: String = read_text(bytes, start, n - 2)?;
        let language: String = read_text(bytes, 1, start)?;
        Ok(
            Term::Literal(
                Literal { value, language: Some(language), datatype: new_string(RDF_LANG_STRING) },
            ),
        )
    } else if tag == TERM_TYPE_LITERAL_TYPED_IN_DICT {
        if n < 4 {
            return Err(TermError::TooShort);
        }
        assert(bytes@.subrange(n - 4, n as int) =~= bytes@.skip(n - 4));
        let id: u64 = read_be(bytes, n - 4, 4);
        proof {
            reveal_with_fuel(crate::bytes::byte_range, 5);
            crate::bytes::lemma_le_value_range(bytes@.skip(n - 4).reverse());
        }
        let datatype: String = match dictionary {
            None => {
                return Err(TermError::NoDictionary);
            },
            Some(dictionary) => dictionary.get_datatype(id as u32)?,
        };
        if n < 5 {
            return Err(TermError::InconsistentLength);
        }
        let value: String = read_text(bytes, 1, n - 4)?;
        Ok(Term::Literal(Literal { value, language: None, datatype }))
    } else if tag == TERM_TYPE_LITERAL_TYPED {
        let width: usize = (usize::BITS / 8) as usize;
        if n < width {
            return Err(TermError::TooShort);
        }
        let end: usize = n - width;
        assert(bytes@.subrange(end as int, n as int) =~= bytes@.skip(end as int));
        let len: u64 = read_be(bytes, end, width);
        if len >= end as u64 {
            return Err(TermError::InconsistentLength);
        }
        let start: usize = end - len as usize;
        let value: String = read_text(bytes, 1, start)?;
        let datatype: String = read_text(bytes, start, end)?;
        Ok(Term::Literal(Literal { value, language: None, datatype }))
    } else {
        Err(TermError::UnknownTag)
    }
}

/// The bytes that the name of a graph is stored as. The default graph is the empty string, which
/// comes first in a sorted list of terms, and so gets the shortest code.
pub open spec fn serialized_graph_name(graph_name: GraphNameView) -> Seq<u8> {
    match graph_name {
        GraphNameView::DefaultGraph => Seq::empty(),
        GraphNameView::NamedNode(iri) => tagged(TERM_TYPE_NAMED_NODE, iri),
        GraphNameView::BlankNode(id) => tagged(TERM_TYPE_BLANK_NODE, id),
    }
}

/// A copy of a term.
pub fn copy_term(term: &Term) -> (copy: Term)
    ensures
        copy@ == term@,
{
    match term {
        Term::NamedNode(iri) => Term::NamedNode(iri.as_str().to_owned()),
        Term::BlankNode(id) => Term::BlankNode(id.as_str().to_owned()),
        Term::Literal(literal) => {
            let language: Option<String> = match &literal.language {
                None => None,
                Some(language) => Some(language.as_str().to_owned()),
            };
            Term::Literal(
                Literal {
                    value: literal.value.as_str().to_owned(),
                    language,
                    datatype: literal.datatype.as_str().to_owned(),
                },
            )
        },
    }
}

/// A node that can be a subject, as a term.
pub fn node_to_term(node: &NamedOrBlankNode) -> (term: Term)
    ensures
        term@ == node@,
{
    match node {
        NamedOrBlankNode::NamedNode(iri) => Term::NamedNode(iri.as_str().to_owned()),
        NamedOrBlankNode::BlankNode(id) => Term::BlankNode(id.as_str().to_owned()),
    }
}

/// The bytes that stand for a node that can be a subject.
pub fn serialize_named_or_blank_node(node: &NamedOrBlankNode) -> (bytes: Vec<u8>)
    ensures
        serialized_term(node@, None) == Ok::<Seq<u8>, TermError>(bytes@),
{
    match node {
        NamedOrBlankNode::NamedNode(iri) => with_tag(TERM_TYPE_NAMED_NODE, iri.as_str()),
        NamedOrBlankNode::BlankNode(id) => with_tag(TERM_TYPE_BLANK_NODE, id.as_str()),
    }
}

/// The bytes that stand for a named node.
pub fn serialize_named_node(iri: &str) -> (bytes: Vec<u8>)
    ensures
        serialized_term(TermView::NamedNode(iri@), None) == Ok::<Seq<u8>, TermError>(bytes@),
{
    with_tag(TERM_TYPE_NAMED_NODE, iri)
}

/// The name of the graph that bytes stand for.
pub open spec fn deserialized_graph_name(bytes: Seq<u8>) -> Result<GraphNameView, TermError> {
    if bytes.len() == 0 {
        Ok(GraphNameView::DefaultGraph)
    } else if bytes[0] == TERM_TYPE_NAMED_NODE {
        match text_of(bytes.skip(1)) {
            Err(e) => Err(e),
            Ok(iri) => Ok(GraphNameView::NamedNode(iri)),
        }
    } else if bytes[0] == TERM_TYPE_BLANK_NODE {
        match text_of(bytes.skip(1)) {
            Err(e) => Err(e),
            Ok(id) => Ok(GraphNameView::BlankNode(id)),
        }
    } else {
        Err(TermError::UnknownTag)
    }
}

/// The bytes that the name of a graph is stored as.
pub fn serialize_graph_name(graph_name: &GraphName) -> (res: Result<Vec<u8>, TermError>)
    ensures
        res matches Ok(bytes) && bytes@ == serialized_graph_name(graph_name@),
{
    match graph_name {
        GraphName::DefaultGraph => {
            let empty: Vec<u8> = Vec::new();
            assert(empty@ =~= serialized_graph_name(graph_name@));
            Ok(empty)
        },
        GraphName::NamedNode(iri) => Ok(with_tag(TERM_TYPE_NAMED_NODE, iri.as_str())),
        GraphName::BlankNode(id) => Ok(with_tag(TERM_TYPE_BLANK_NODE, id.as_str())),
    }
}

/// The name of the graph that bytes stand for.
pub fn deserialize_graph_name(bytes: &[u8]) -> (res: Result<GraphName, TermError>)
    ensures
        match deserialized_graph_name(bytes@) {
            Err(e) => res is Err && res->Err_0 == e,
            Ok(graph_name) => res matches Ok(g) && g@ == graph_name,
        },
{
    let n: usize = bytes.len();
    if n == 0 {
        return Ok(GraphName::DefaultGraph);
    }
    assert(bytes@.subrange(1, n as int) =~= bytes@.skip(1));
    if bytes[0] == TERM_TYPE_NAMED_NODE {
        Ok(GraphName::NamedNode(read_text(bytes, 1, n)?))
    } else if bytes[0] == TERM_TYPE_BLANK_NODE {
        Ok(GraphName::BlankNode(read_text(bytes, 1, n)?))
    } else {
        Err(TermError::UnknownTag)
    }
}

proof fn lemma_text(text: Seq<char>)
    ensures
        text_of(encode_utf8(text)) == Ok::<Seq<char>, TermError>(text),
{
    vstd::utf8::encode_utf8_valid_utf8(text);
    vstd::utf8::encode_utf8_decode_utf8(text);
}

proof fn lemma_tagged(tag: u8, text: Seq<char>)
    ensures
        tagged(tag, text).len() > 0,
        tagged(tag, text)[0] == tag,
        tagged(tag, text).skip(1) == encode_utf8(text),
{
    assert(tagged(tag, text).skip(1) =~= encode_utf8(text));
}

/// The name of a graph is read back as it was stored.
pub proof fn lemma_graph_name_round_trip(graph_name: GraphNameView)
    ensures
        deserialized_graph_name(serialized_graph_name(graph_name)) == Ok::<
            GraphNameView,
            TermError,
        >(graph_name),
{
    match graph_name {
        GraphNameView::DefaultGraph => {},
        GraphNameView::NamedNode(iri) => {
            lemma_tagged(TERM_TYPE_NAMED_NODE, iri);
            lemma_text(iri);
        },
        GraphNameView::BlankNode(id) => {
            lemma_tagged(TERM_TYPE_BLANK_NODE, id);
            lemma_text(id);
        },
    }
}

proof fn lemma_length_code(len: nat)
    requires
        len <= usize::MAX,
    ensures
        be_bytes(len, usize::BITS as nat / 8).len() == usize::BITS as nat / 8,
        crate::bytes::be_value(be_bytes(len, usize::BITS as nat / 8)) == len,
{
    let n = usize::BITS as nat / 8;
    reveal_with_fuel(crate::bytes::byte_range, 9);
    crate::bytes::lemma_le_bytes_len(len, n);
    crate::bytes::lemma_be_round_trip(len, n);
}

/// A term that can be stored is read back as it was stored.
pub proof fn lemma_term_round_trip(term: TermView, dictionary: Option<TermDictionary>)
    requires
        dictionary matches Some(dictionary) ==> dictionary.well_formed(),
        serialized_term(term, dictionary) matches Ok(bytes) && bytes.len() <= usize::MAX,
    ensures
        deserialized_term(serialized_term(term, dictionary)->Ok_0, dictionary) == Ok::<
            TermView,
            TermError,
        >(term),
{
    let bytes = serialized_term(term, dictionary)->Ok_0;
    let n = bytes.len() as int;
    match term {
        TermView::NamedNode(iri) => {
            lemma_tagged(TERM_TYPE_NAMED_NODE, iri);
            lemma_text(iri);
        },
        TermView::BlankNode(id) => {
            lemma_tagged(TERM_TYPE_BLANK_NODE, id);
            lemma_text(id);
        },
        TermView::Literal(value, None, datatype) => {
            lemma_text(value);
            if datatype == XSD_STRING@ {
                lemma_tagged(TERM_TYPE_LITERAL_SIMPLE, value);
            } else if bytes[0] == TERM_TYPE_LITERAL_TYPED {
                let width = usize::BITS as int / 8;
                let len = encode_utf8(datatype).len();
                lemma_text(datatype);
                lemma_length_code(len);
                assert(bytes.skip(n - width) =~= be_bytes(len, width as nat));
                assert(bytes.subrange(1, n - width - len) =~= encode_utf8(value));
                assert(bytes.subrange(n - width - len, n - width) =~= encode_utf8(datatype));
            } else {
                let dict = dictionary->Some_0;
                let id = dict.datatype_id(datatype)->Ok_0->Some_0;
                dict.lemma_datatype(datatype);
                let code = be_bytes(id as nat, 4);
                crate::bytes::lemma_le_bytes_len(id as nat, 4);
                reveal_with_fuel(crate::bytes::byte_range, 5);
                crate::bytes::lemma_be_round_trip(id as nat, 4);
                assert(bytes.skip(n - 4) =~= code);
                assert(bytes.subrange(1, n - 4) =~= encode_utf8(value));
            }
        },
        TermView::Literal(value, Some(language), datatype) => {
            lemma_text(value);
            lemma_text(language);
            let len = encode_utf8(language).len();
            let code = be_bytes(len, 2);
            crate::bytes::lemma_le_bytes_len(len, 2);
            reveal_with_fuel(crate::bytes::byte_range, 3);
            crate::bytes::lemma_be_round_trip(len, 2);
            assert(bytes.skip(n - 2) =~= code);
            assert(bytes.subrange(1, 1 + len as int) =~= encode_utf8(language));
            assert(bytes.subrange(1 + len as int, n - 2) =~= encode_utf8(value));
        },
    }
}

/// Which terms can be stored without a dictionary: all nodes, all literals without a language tag,
/// whatever their value and datatype, and the literals with a language tag of less than 2^16 bytes
/// that have the datatype of such literals. There is an error for each reason why another one
/// cannot be.
pub proof fn lemma_storable_terms(term: TermView)
    ensures
        ({
            let language = match term {
                TermView::Literal(_, Some(language), _) => Some(language),
                _ => None,
            };
            let is_lang_string = term matches TermView::Literal(_, _, datatype) && datatype
                == "http://www.w3.org/1999/02/22-rdf-syntax-ns#langString"@;
            &&& language is None ==> serialized_term(term, None) is Ok
            &&& language matches Some(tag) ==> (serialized_term(term, None) is Ok <==> is_lang_string
                && encode_utf8(tag).len() < 65536)
            &&& serialized_term(term, None) == Err::<Seq<u8>, TermError>(
                TermError::LanguageAndDatatype,
            ) <==> language is Some && !is_lang_string
            &&& serialized_term(term, None) == Err::<Seq<u8>, TermError>(
                TermError::LanguageTooLong,
            ) <==> (language matches Some(tag) && is_lang_string && encode_utf8(tag).len() >= 65536)
        }),
{
}

/// Which terms can be stored with a dictionary: those that can be stored without one, unless the
/// datatype of a literal cannot be looked up.
pub proof fn lemma_storable_with_dictionary(term: TermView, dictionary: TermDictionary)
    ensures
        serialized_term(term, None) is Err ==> serialized_term(term, Some(dictionary))
            == serialized_term(term, None),
        serialized_term(term, None) is Ok ==> (serialized_term(term, Some(dictionary)) is Err <==> (
        term matches TermView::Literal(_, None, datatype) && datatype
            != "http://www.w3.org/2001/XMLSchema#string"@ && dictionary.datatype_id(
            datatype,
        ) is Err)),
{
}

/// How terms are stored without a dictionary. A byte for the kind of the term comes first. The text
/// of a node or a simple literal follows. A literal with a language tag has the tag, the value, and
/// the length of the tag in two bytes; any other literal has its value, its datatype, and the
/// length of the datatype in as many bytes as a `usize` has.
pub proof fn lemma_term_layout(term: TermView)
    requires
        serialized_term(term, None) matches Ok(bytes) && bytes.len() <= usize::MAX,
    ensures
        ({
            let bytes = serialized_term(term, None)->Ok_0;
            let n = bytes.len() as int;
            let width = usize::BITS as int / 8;
            match term {
                TermView::NamedNode(iri) => n > 0 && bytes[0] == 1 && bytes.skip(1) == encode_utf8(
                    iri,
                ),
                TermView::BlankNode(id) => n > 0 && bytes[0] == 2 && bytes.skip(1) == encode_utf8(
                    id,
                ),
                TermView::Literal(value, None, datatype) => if datatype
                    == "http://www.w3.org/2001/XMLSchema#string"@ {
                    n > 0 && bytes[0] == 4 && bytes.skip(1) == encode_utf8(value)
                } else {
                    let v = encode_utf8(value).len() as int;
                    let d = encode_utf8(datatype).len() as int;
                    &&& n == 1 + v + d + width
                    &&& bytes[0] == 6
                    &&& bytes.subrange(1, 1 + v) == encode_utf8(value)
                    &&& bytes.subrange(1 + v, 1 + v + d) == encode_utf8(datatype)
                    &&& be_value(bytes.skip(1 + v + d)) == d
                },
                TermView::Literal(value, Some(language), _) => {
                    let v = encode_utf8(value).len() as int;
                    let l = encode_utf8(language).len() as int;
                    &&& n == 1 + l + v + 2
                    &&& bytes[0] == 5
                    &&& bytes.subrange(1, 1 + l) == encode_utf8(language)
                    &&& bytes.subrange(1 + l, 1 + l + v) == encode_utf8(value)
                    &&& be_value(bytes.skip(1 + l + v)) == l
                },
            }
        }),
{
    let bytes = serialized_term(term, None)->Ok_0;
    let n = bytes.len() as int;
    match term {
        TermView::NamedNode(iri) => {
            lemma_tagged(TERM_TYPE_NAMED_NODE, iri);
        },
        TermView::BlankNode(id) => {
            lemma_tagged(TERM_TYPE_BLANK_NODE, id);
        },
        TermView::Literal(value, None, datatype) => {
            if datatype == XSD_STRING@ {
                lemma_tagged(TERM_TYPE_LITERAL_SIMPLE, value);
            } else {
                let width = usize::BITS as int / 8;
                let v = encode_utf8(value).len() as int;
                let d = encode_utf8(datatype).len();
                lemma_length_code(d);
                assert(bytes.skip(1 + v + d) =~= be_bytes(d, width as nat));
                assert(bytes.subrange(1, 1 + v) =~= encode_utf8(value));
                assert(bytes.subrange(1 + v, 1 + v + d) =~= encode_utf8(datatype));
            }
        },
        TermView::Literal(value, Some(language), _) => {
            let v = encode_utf8(value).len() as int;
            let l = encode_utf8(language).len();
            crate::bytes::lemma_le_bytes_len(l, 2);
            reveal_with_fuel(crate::bytes::byte_range, 3);
            crate::bytes::lemma_be_round_trip(l, 2);
            assert(bytes.skip(1 + l + v) =~= be_bytes(l, 2));
            assert(bytes.subrange(1, 1 + l as int) =~= encode_utf8(language));
            assert(bytes.subrange(1 + l as int, 1 + l + v) =~= encode_utf8(value));
        },
    }
}

/// How terms are stored with a dictionary: as without one, except for literals without language tag
/// whose datatype is found in it and is not that of simple literals. These have their value, and the
/// number of the datatype in four bytes.
pub proof fn lemma_dictionary_layout(term: TermView, dictionary: TermDictionary)
    requires
        serialized_term(term, Some(dictionary)) is Ok,
    ensures
        ({
            let bytes = serialized_term(term, Some(dictionary))->Ok_0;
            let id = match term {
                TermView::Literal(_, None, datatype) => if datatype
                    == "http://www.w3.org/2001/XMLSchema#string"@ {
                    None
                } else {
                    dictionary.datatype_id(datatype)->Ok_0
                },
                _ => None,
            };
            match id {
                None => serialized_term(term, Some(dictionary)) == serialized_term(term, None),
                Some(id) => term matches TermView::Literal(value, _, _) && {
                    let v = encode_utf8(value).len() as int;
                    &&& bytes.len() == 1 + v + 4
                    &&& bytes[0] == 7
                    &&& bytes.subrange(1, 1 + v) == encode_utf8(value)
                    &&& be_value(bytes.skip(1 + v)) == id
                },
            }
        }),
{
    let bytes = serialized_term(term, Some(dictionary))->Ok_0;
    match term {
        TermView::Literal(value, None, datatype) => {
            if datatype != XSD_STRING@ {
                match dictionary.datatype_id(datatype)->Ok_0 {
                    Some(id) => {
                        let v = encode_utf8(value).len() as int;
                        crate::bytes::lemma_le_bytes_len(id as nat, 4);
                        reveal_with_fuel(crate::bytes::byte_range, 5);
                        crate::bytes::lemma_be_round_trip(id as nat, 4);
                        assert(bytes.skip(1 + v) =~= be_bytes(id as nat, 4));
                        assert(bytes.subrange(1, 1 + v) =~= encode_utf8(value));
                    },
                    None => {},
                }
            }
        },
        _ => {},
    }
}

/// The name of a graph is stored as the node that it is, and the default graph as no byte.
pub proof fn lemma_graph_name_layout(graph_name: GraphNameView)
    ensures
        match graph_name {
            GraphNameView::DefaultGraph => serialized_graph_name(graph_name).len() == 0,
            GraphNameView::NamedNode(iri) => serialized_term(TermView::NamedNode(iri), None) == Ok::<
                Seq<u8>,
                TermError,
            >(serialized_graph_name(graph_name)),
            GraphNameView::BlankNode(id) => serialized_term(TermView::BlankNode(id), None) == Ok::<
                Seq<u8>,
                TermError,
            >(serialized_graph_name(graph_name)),
        },
{
}

/// The bytes of different terms that are stored without a dictionary are different.
pub proof fn lemma_serialized_term_injective(a: TermView, b: TermView)
    requires
        serialized_term(a, None) matches Ok(bytes) && bytes.len() <= usize::MAX,
        serialized_term(a, None) == serialized_term(b, None),
    ensures
        a == b,
{
    lemma_term_round_trip(a, None);
    lemma_term_round_trip(b, None);
}

/// Whether two terms are the same.
pub fn term_eq(a: &Term, b: &Term) -> (eq: bool)
    ensures
        eq == (a@ == b@),
{
    match (a, b) {
        (Term::NamedNode(x), Term::NamedNode(y)) => text_eq(x.as_str(), y.as_str()),
        (Term::BlankNode(x), Term::BlankNode(y)) => text_eq(x.as_str(), y.as_str()),
        (Term::Literal(x), Term::Literal(y)) => {
            let same_language: bool = match (&x.language, &y.language) {
                (None, None) => true,
                (Some(l), Some(m)) => text_eq(l.as_str(), m.as_str()),
                _ => false,
            };
            text_eq(x.value.as_str(), y.value.as_str()) && same_language && text_eq(
                x.datatype.as_str(),
                y.datatype.as_str(),
            )
        },
        _ => false,
    }
}

proof fn lemma_text_back(bytes: Seq<u8>)
    ensures
        text_of(bytes) matches Ok(text) ==> encode_utf8(text) == bytes,
{
    if valid_utf8(bytes) {
        vstd::utf8::decode_utf8_encode_utf8(bytes);
    }
}

/// Which bytes are read as a term, without a dictionary: those that this term is stored as, and
/// those of a literal that is written with the datatype of simple literals. No other bytes are
/// read.
pub proof fn lemma_readable(bytes: Seq<u8>, term: TermView)
    requires
        bytes.len() <= usize::MAX,
    ensures
        deserialized_term(bytes, None) == Ok::<TermView, TermError>(term) <==> {
            ||| serialized_term(term, None) == Ok::<Seq<u8>, TermError>(bytes)
            ||| term matches TermView::Literal(value, None, datatype) && datatype
                == "http://www.w3.org/2001/XMLSchema#string"@ && bytes == seq![6u8] + encode_utf8(
                value,
            ) + encode_utf8(datatype) + be_bytes(
                encode_utf8(datatype).len(),
                usize::BITS as nat / 8,
            )
        },
{
    let n = bytes.len() as int;
    if serialized_term(term, None) == Ok::<Seq<u8>, TermError>(bytes) {
        lemma_term_round_trip(term, None);
    }
    if let TermView::Literal(value, None, datatype) = term {
        let v = encode_utf8(value);
        let d = encode_utf8(datatype);
        let width = usize::BITS as int / 8;
        if bytes == seq![6u8] + v + d + be_bytes(d.len(), width as nat) {
            crate::bytes::lemma_le_bytes_len(d.len(), width as nat);
            lemma_text(value);
            lemma_text(datatype);
            lemma_length_code(d.len());
            assert(bytes.skip(n - width) =~= be_bytes(d.len(), width as nat));
            assert(bytes.subrange(1, n - width - d.len()) =~= v);
            assert(bytes.subrange(n - width - d.len(), n - width) =~= d);
        }
    }
    if deserialized_term(bytes, None) == Ok::<TermView, TermError>(term) {
        lemma_read_bytes(bytes, term);
    }
}

#[verifier::rlimit(50)]
proof fn lemma_read_bytes(bytes: Seq<u8>, term: TermView)
    requires
        bytes.len() <= usize::MAX,
        deserialized_term(bytes, None) == Ok::<TermView, TermError>(term),
    ensures
        serialized_term(term, None) == Ok::<Seq<u8>, TermError>(bytes) || (
        term matches TermView::Literal(value, None, datatype) && datatype == XSD_STRING@ && bytes
            == seq![6u8] + encode_utf8(value) + encode_utf8(datatype) + be_bytes(
            encode_utf8(datatype).len(),
            usize::BITS as nat / 8,
        )),
{
    let n = bytes.len() as int;
    let tag = bytes[0];
    if tag == TERM_TYPE_LITERAL_LANGUAGE {
        let code = bytes.skip(n - 2);
        let len = be_value(code) as int;
        crate::bytes::lemma_bytes_of_value(code);
        crate::bytes::lemma_le_value_range(code.reverse());
        reveal_with_fuel(crate::bytes::byte_range, 3);
        lemma_text_back(bytes.subrange(1 + len, n - 2));
        lemma_text_back(bytes.subrange(1, 1 + len));
        let stored = seq![tag] + bytes.subrange(1, 1 + len) + bytes.subrange(1 + len, n - 2) + code;
        assert(stored =~= bytes);
    } else if tag == TERM_TYPE_LITERAL_TYPED {
        let width = usize::BITS as int / 8;
        let code = bytes.skip(n - width);
        crate::bytes::lemma_bytes_of_value(code);
        let start = n - width - be_value(code);
        lemma_text_back(bytes.subrange(1, start));
        lemma_text_back(bytes.subrange(start, n - width));
        let stored = seq![tag] + bytes.subrange(1, start) + bytes.subrange(start, n - width) + code;
        assert(stored =~= bytes);
    } else if tag != TERM_TYPE_LITERAL_TYPED_IN_DICT {
        lemma_text_back(bytes.skip(1));
        assert(seq![tag] + bytes.skip(1) =~= bytes);
    }
}

/// Which bytes are read as the name of a graph: those that it is stored as, and no other.
pub proof fn lemma_readable_graph_name(bytes: Seq<u8>, graph_name: GraphNameView)
    ensures
        deserialized_graph_name(bytes) == Ok::<GraphNameView, TermError>(graph_name) <==> bytes
            == serialized_graph_name(graph_name),
{
    lemma_graph_name_round_trip(graph_name);
    if bytes.len() == 0 {
        assert(bytes =~= Seq::empty());
    } else {
        lemma_text_back(bytes.skip(1));
        assert(seq![bytes[0]] + bytes.skip(1) =~= bytes);
    }
    if bytes == serialized_graph_name(graph_name) {
        match graph_name {
            GraphNameView::DefaultGraph => {},
            GraphNameView::NamedNode(iri) => {
                lemma_tagged(TERM_TYPE_NAMED_NODE, iri);
            },
            GraphNameView::BlankNode(id) => {
                lemma_tagged(TERM_TYPE_BLANK_NODE, id);
            },
        }
    }
}

/// What terms, names of graphs and quads are is what their texts are, each at its place.
pub proof fn lemma_views(text: String, literal: Literal, quad: Quad)
    ensures
        Term::NamedNode(text)@ == TermView::NamedNode(text@),
        Term::BlankNode(text)@ == TermView::BlankNode(text@),
        Term::Literal(literal)@ == TermView::Literal(
            literal.value@,
            if literal.language is Some {
                Some(literal.language->Some_0@)
            } else {
                None
            },
            literal.datatype@,
        ),
        NamedOrBlankNode::NamedNode(text)@ == TermView::NamedNode(text@),
        NamedOrBlankNode::BlankNode(text)@ == TermView::BlankNode(text@),
        GraphName::DefaultGraph@ == GraphNameView::DefaultGraph,
        GraphName::NamedNode(text)@ == GraphNameView::NamedNode(text@),
        GraphName::BlankNode(text)@ == GraphNameView::BlankNode(text@),
        quad@.subject == quad.subject@,
        quad@.predicate == quad.predicate@,
        quad@.object == quad.object@,
        quad@.graph_name == quad.graph_name@,
{
}

} // verus!
