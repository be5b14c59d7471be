//! RDF files read as quads.

use crate::terms::{GraphName, Literal, NamedOrBlankNode, Quad, QuadView, Term};
use crate::terms_writer::quad_views;
use crate::utils::{FormatKind, RdfFormat};
use oxrdf::{NamedNode, Quad as ParsedQuad};
use oxrdfio::RdfParser;
use vstd::prelude::*;

verus! {

/// Declares parsers of RDF.
#[verifier::external_type_specification]
#[verifier::external_body]
pub struct ExRdfParser(RdfParser);

/// Declares the quads that parsers give.
#[verifier::external_type_specification]
#[verifier::external_body]
pub struct ExParsedQuad(ParsedQuad);

/// How a parser is set up.
pub struct ParserSettings {
    /// The format.
    pub format: FormatKind,
    /// The IRI of the graph in which the quads of the default graph are put, if it is not that one.
    pub graph: Option<Seq<char>>,
    /// The IRI against which relative ones are resolved, if any.
    pub base: Option<Seq<char>>,
    /// Whether the syntax of terms is not checked.
    pub lenient: bool,
}

/// Whether lines of a format can be parsed one by one.
pub open spec fn is_line_based(format: FormatKind) -> bool {
    format is NQuads || format is NTriples
}

/// The base IRI of a parser that is given one: none if the format has no relative IRIs.
pub open spec fn base_of(format: FormatKind, base: Option<Seq<char>>) -> Option<Seq<char>> {
    if is_line_based(format) {
        None
    } else {
        base
    }
}

/// How a parser is set up.
pub uninterp spec fn parser_settings(parser: RdfParser) -> ParserSettings;

/// What a quad that a parser gives is.
pub uninterp spec fn parsed_quad(quad: ParsedQuad) -> QuadView;

/// Whether a text is an absolute IRI.
pub uninterp spec fn valid_iri(iri: Seq<char>) -> bool;

/// The quads that a file is parsed as, or nothing where it cannot be parsed. `drawn` are the texts
/// that are drawn at random: the names of blank nodes that have none, and the keys of JSON-LD
/// contexts in the order in which they are visited.
pub uninterp spec fn file_quads(
    settings: ParserSettings,
    bytes: Seq<u8>,
    drawn: Seq<Seq<char>>,
) -> Seq<Option<QuadView>>;

/// Whether quads are those that a file is parsed as, whatever was drawn at random. Nothing is for
/// the formats of which lines can be parsed one by one.
pub open spec fn are_quads_of(
    settings: ParserSettings,
    bytes: Seq<u8>,
    quads: Seq<Option<QuadView>>,
) -> bool {
    &&& exists|drawn: Seq<Seq<char>>| quads == #[trigger] file_quads(settings, bytes, drawn)
    &&& is_line_based(settings.format) ==> quads == file_quads(settings, bytes, Seq::empty())
}

/// `RdfParser::from_format`: a parser of a format, which checks terms, knows no base IRI and leaves
/// the default graph as it is.
#[verifier::external_body]
pub(crate) fn new_parser(format: RdfFormat) -> (parser: RdfParser)
    ensures
        parser_settings(parser) == (ParserSettings {
            format: format@,
            graph: None,
            base: None,
            lenient: false,
        }),
{
    RdfParser::from_format(match format {
        RdfFormat::N3 => oxrdfio::RdfFormat::N3,
        RdfFormat::NQuads => oxrdfio::RdfFormat::NQuads,
        RdfFormat::NTriples => oxrdfio::RdfFormat::NTriples,
        RdfFormat::RdfXml => oxrdfio::RdfFormat::RdfXml,
        RdfFormat::TriG => oxrdfio::RdfFormat::TriG,
        RdfFormat::Turtle => oxrdfio::RdfFormat::Turtle,
        RdfFormat::JsonLd(profile) => oxrdfio::RdfFormat::JsonLd { profile },
    })
}

/// `NamedNode::new`, which checks that a text is an absolute IRI.
#[verifier::external_body]
pub(crate) fn check_iri(iri: &str) -> (valid: bool)
    ensures
        valid == valid_iri(iri@),
{
    NamedNode::new(iri).is_ok()
}

/// `RdfParser::with_default_graph`: a parser that puts the quads of the default graph in another
/// one.
#[verifier::external_body]
pub(crate) fn with_default_graph(parser: RdfParser, iri: &str) -> (changed: RdfParser)
    ensures
        parser_settings(changed) == (ParserSettings {
            graph: Some(iri@),
            ..parser_settings(parser)
        }),
{
    parser.with_default_graph(NamedNode::new_unchecked(iri))
}

/// `RdfParser::with_base_iri`, on a parser without base: one that resolves relative IRIs against
/// another IRI, which has to be absolute. A parser of a format without relative IRIs is unchanged.
#[verifier::external_body]
pub(crate) fn with_base_iri(parser: RdfParser, iri: &str) -> (changed: Option<RdfParser>)
    requires
        parser_settings(parser).base is None,
    ensures
        changed is Some == (is_line_based(parser_settings(parser).format) || valid_iri(iri@)),
        changed matches Some(p) ==> parser_settings(p) == (ParserSettings {
            base: base_of(parser_settings(parser).format, Some(iri@)),
            ..parser_settings(parser)
        }),
{
    parser.with_base_iri(iri).ok()
}

/// `RdfParser::lenient`: a parser that does not check the syntax of terms.
#[verifier::external_body]
pub(crate) fn make_lenient(parser: RdfParser) -> (changed: RdfParser)
    ensures
        parser_settings(changed) == (ParserSettings { lenient: true, ..parser_settings(parser) }),
{
    parser.lenient()
}

/// What optional quads that a parser gives are.
pub open spec fn parsed_quads(quads: Seq<Option<ParsedQuad>>) -> Seq<Option<QuadView>> {
    quads.map_values(
        |quad: Option<ParsedQuad>|
            match quad {
                None => None,
                Some(quad) => Some(parsed_quad(quad)),
            },
    )
}

/// `RdfParser::for_reader`: the quads that bytes are parsed as, or nothing where they cannot be
/// parsed, as the settings of the parser, the bytes and what is drawn at random tell. The names
/// that are drawn are not said.
#[verifier::external_body]
pub(crate) fn parse(parser: &RdfParser, bytes: &[u8]) -> (quads: Vec<Option<ParsedQuad>>)
    ensures
        exists|drawn: Seq<Seq<char>>|
            parsed_quads(quads@) == #[trigger] file_quads(
                parser_settings(*parser),
                bytes@,
                drawn,
            ),
        is_line_based(parser_settings(*parser).format) ==> parsed_quads(quads@) == file_quads(
            parser_settings(*parser),
            bytes@,
            Seq::empty(),
        ),
{
    parser.clone().for_reader(bytes).map(|quad| quad.ok()).collect()
}

/// The field `subject` of a quad.
#[verifier::external_body]
fn subject_of(quad: &ParsedQuad) -> (subject: NamedOrBlankNode)
    ensures
        subject@ == parsed_quad(*quad).subject,
{
    match &quad.subject {
        oxrdf::NamedOrBlankNode::NamedNode(n) => NamedOrBlankNode::NamedNode(n.as_str().to_owned()),
        oxrdf::NamedOrBlankNode::BlankNode(n) => NamedOrBlankNode::BlankNode(n.as_str().to_owned()),
    }
}

/// The field `predicate` of a quad.
#[verifier::external_body]
fn predicate_of(quad: &ParsedQuad) -> (predicate: String)
    ensures
        predicate@ == parsed_quad(*quad).predicate,
{
    quad.predicate.as_str().to_owned()
}

/// The field `object` of a quad.
#[verifier::external_body]
fn object_of(quad: &ParsedQuad) -> (object: Term)
    ensures
        object@ == parsed_quad(*quad).object,
{
    match &quad.object {
        oxrdf::Term::NamedNode(n) => Term::NamedNode(n.as_str().to_owned()),
        oxrdf::Term::BlankNode(n) => Term::BlankNode(n.as_str().to_owned()),
        oxrdf::Term::Literal(l) => Term::Literal(Literal {
            value: l.value().to_owned(),
            language: l.language().map(|language| language.to_owned()),
            datatype: l.datatype().as_str().to_owned(),
        }),
    }
}

/// The field `graph_name` of a quad.
#[verifier::external_body]
fn graph_of(quad: &ParsedQuad) -> (graph_name: GraphName)
    ensures
        graph_name@ == parsed_quad(*quad).graph_name,
{
    match &quad.graph_name {
        oxrdf::GraphName::DefaultGraph => GraphName::DefaultGraph,
        oxrdf::GraphName::NamedNode(n) => GraphName::NamedNode(n.as_str().to_owned()),
        oxrdf::GraphName::BlankNode(n) => GraphName::BlankNode(n.as_str().to_owned()),
    }
}

/// Why an RDF file could not be parsed.
#[derive(Clone, Copy, Debug, PartialEq, Eq, Structural)]
pub enum ParseError {
    /// The name of the graph is not an absolute IRI.
    InvalidGraphName,
    /// The base is not an absolute IRI.
    InvalidBase,
    /// Some quad could not be parsed.
    Syntax,
    /// The lines of the format cannot be parsed one by one.
    UnsupportedFormat,
}

/// How a parser is to be set up, or why it cannot.
pub open spec fn wanted_settings(
    format: FormatKind,
    base: Option<&str>,
    graph: Option<&str>,
    lenient: bool,
) -> Result<ParserSettings, ParseError> {
    if graph matches Some(iri) && !valid_iri(iri@) {
        Err(ParseError::InvalidGraphName)
    } else if base matches Some(iri) && !is_line_based(format) && !valid_iri(iri@) {
        Err(ParseError::InvalidBase)
    } else {
        Ok(
            ParserSettings {
                format,
                graph: match graph {
                    None => None,
                    Some(iri) => Some(iri@),
                },
                base: match base {
                    None => None,
                    Some(iri) => base_of(format, Some(iri@)),
                },
                lenient,
            },
        )
    }
}

/// A parser for a format.
pub fn set_up_parser(
    format: RdfFormat,
    base: Option<&str>,
    graph: Option<&str>,
    lenient: bool,
) -> (res: Result<RdfParser, ParseError>)
    ensures
        match wanted_settings(format@, base, graph, lenient) {
            Err(e) => res is Err && res->Err_0 == e,
            Ok(settings) => res matches Ok(parser) && parser_settings(parser) == settings,
        },
{
    let mut parser: RdfParser = new_parser(format);
    if let Some(iri) = graph {
        if !check_iri(iri) {
            return Err(ParseError::InvalidGraphName);
        }
        parser = with_default_graph(parser, iri);
    }
    if let Some(iri) = base {
        parser = match with_base_iri(parser, iri) {
            None => {
                return Err(ParseError::InvalidBase);
            },
            Some(changed) => changed,
        };
    }
    if lenient {
        parser = make_lenient(parser);
    }
    Ok(parser)
}

/// A quad that a parser gives, in terms of this library.
fn convert_quad(quad: &ParsedQuad) -> (converted: Quad)
    ensures
        converted@ == parsed_quad(*quad),
{
    Quad {
        subject: subject_of(quad),
        predicate: predicate_of(quad),
        object: object_of(quad),
        graph_name: graph_of(quad),
    }
}

/// What optional quads are.
pub open spec fn optional_views(quads: Seq<Option<Quad>>) -> Seq<Option<QuadView>> {
    quads.map_values(
        |quad: Option<Quad>|
            match quad {
                None => None,
                Some(quad) => Some(quad@),
            },
    )
}

/// The quads that bytes are parsed as, or nothing where they cannot be parsed.
pub fn parse_chunk(parser: &RdfParser, bytes: &[u8]) -> (quads: Vec<Option<Quad>>)
    ensures
        are_quads_of(parser_settings(*parser), bytes@, optional_views(quads@)),
{
    let parsed: Vec<Option<ParsedQuad>> = parse(parser, bytes);
    let mut quads: Vec<Option<Quad>> = Vec::new();
    let mut i: usize = 0;
    assert(optional_views(quads@) =~= parsed_quads(parsed@).take(0));
    while i < parsed.len()
        invariant
            i <= parsed@.len(),
            optional_views(quads@) == parsed_quads(parsed@).take(i as int),
        decreases parsed@.len() - i,
    {
        let quad: Option<Quad> = match &parsed[i] {
            None => None,
            Some(quad) => Some(convert_quad(quad)),
        };
        let ghost before = quads@;
        quads.push(quad);
        proof {
            assert(optional_views(quads@) =~= optional_views(before).push(
                optional_views(quads@).last(),
            ));
            assert(parsed_quads(parsed@).take(i + 1) =~= parsed_quads(parsed@).take(
                i as int,
            ).push(parsed_quads(parsed@)[i as int]));
        }
        i = i + 1;
    }
    assert(parsed_quads(parsed@).take(i as int) =~= parsed_quads(parsed@));
    quads
}

/// Parses a file.
pub fn get_quads(
    bytes: &[u8],
    format: RdfFormat,
    base: Option<&str>,
    graph: Option<&str>,
    lenient: bool,
) -> (res: Result<Vec<Option<Quad>>, ParseError>)
    ensures
        match wanted_settings(format@, base, graph, lenient) {
            Err(e) => res is Err && res->Err_0 == e,
            Ok(settings) => res matches Ok(quads) && are_quads_of(
                settings,
                bytes@,
                optional_views(quads@),
            ),
        },
{
    let parser: RdfParser = set_up_parser(format, base, graph, lenient)?;
    Ok(parse_chunk(&parser, bytes))
}

/// The quads of a list that could be parsed.
pub open spec fn parsed_only(quads: Seq<Option<QuadView>>) -> Seq<QuadView>
    decreases quads.len(),
{
    if quads.len() == 0 {
        Seq::empty()
    } else {
        match quads.last() {
            None => parsed_only(quads.drop_last()),
            Some(quad) => parsed_only(quads.drop_last()).push(quad),
        }
    }
}

/// The quads of a list. Those that could not be parsed are dropped if `lenient` is set, and are an
/// error otherwise.
pub fn keep_quads(quads: Vec<Option<Quad>>, lenient: bool) -> (res: Result<Vec<Quad>, ParseError>)
    ensures
        if !lenient && optional_views(quads@).contains(None) {
            res is Err && res->Err_0 == ParseError::Syntax
        } else {
            res is Ok && quad_views(res->Ok_0@) == parsed_only(optional_views(quads@))
        },
{
    let ghost views = optional_views(quads@);
    let mut kept: Vec<Quad> = Vec::new();
    assert(views.take(0) =~= Seq::empty());
    assert(quad_views(kept@) =~= Seq::empty());
    for quad in it: quads
        invariant
            it.seq() == quads@,
            views == optional_views(quads@),
            quad_views(kept@) == parsed_only(views.take(it.index())),
            lenient || forall|j: int| 0 <= j < it.index() ==> views[j] is Some,
    {
        let ghost i = it.index();
        proof {
            assert(views.take(i + 1).drop_last() =~= views.take(i));
            assert(quad == quads@[i]);
        }
        match quad {
            None => {
                if !lenient {
                    assert(views[i] is None);
                    return Err(ParseError::Syntax);
                }
            },
            Some(quad) => {
                let ghost before = kept@;
                kept.push(quad);
                assert(quad_views(kept@) =~= quad_views(before).push(quad@));
            },
        }
    }
    assert(views.take(views.len() as int) =~= views);
    Ok(kept)
}

/// The formats of which lines can be parsed one by one are N-Quads and N-Triples, and no other.
pub proof fn lemma_line_formats(format: FormatKind)
    ensures
        match format {
            FormatKind::NQuads => is_line_based(format),
            FormatKind::NTriples => is_line_based(format),
            FormatKind::N3 => !is_line_based(format),
            FormatKind::RdfXml => !is_line_based(format),
            FormatKind::TriG => !is_line_based(format),
            FormatKind::Turtle => !is_line_based(format),
            FormatKind::JsonLd(_) => !is_line_based(format),
        },
{
}

/// A parser can be set up for every format, unless the IRI of the graph is not a valid one, or that
/// of the base is not and the format has relative IRIs. It is set up for this format, with this
/// graph and this leniency, and with the base if the format has relative IRIs.
pub proof fn lemma_settings(
    format: FormatKind,
    base: Option<&str>,
    graph: Option<&str>,
    lenient: bool,
)
    ensures
        ({
            let lines = format is NQuads || format is NTriples;
            let graph_fails = graph is Some && !valid_iri(graph->Some_0@);
            let base_fails = base is Some && !lines && !valid_iri(base->Some_0@);
            let res = wanted_settings(format, base, graph, lenient);
            &&& res is Ok <==> !graph_fails && !base_fails
            &&& graph_fails ==> res == Err::<ParserSettings, ParseError>(
                ParseError::InvalidGraphName,
            )
            &&& base_fails && !graph_fails ==> res == Err::<ParserSettings, ParseError>(
                ParseError::InvalidBase,
            )
            &&& res is Ok ==> {
                &&& res->Ok_0.format == format
                &&& res->Ok_0.lenient == lenient
                &&& graph is None <==> res->Ok_0.graph is None
                &&& graph is Some ==> res->Ok_0.graph->Some_0 == graph->Some_0@
                &&& base is None || lines <==> res->Ok_0.base is None
                &&& base is Some && !lines ==> res->Ok_0.base->Some_0 == base->Some_0@
            }
        }),
{
}

/// The quads that are kept are all those that could be parsed, in order: they are those of the
/// beginning of a list and then those of its end, wherever it is cut; a quad by itself is kept, and
/// nothing is kept where nothing could be parsed.
pub proof fn lemma_kept(a: Seq<Option<QuadView>>, b: Seq<Option<QuadView>>, quad: QuadView)
    ensures
        parsed_only(a + b) == parsed_only(a) + parsed_only(b),
        parsed_only(seq![Some(quad)]) == seq![quad],
        parsed_only(seq![None::<QuadView>]) == Seq::<QuadView>::empty(),
        parsed_only(Seq::empty()) == Seq::<QuadView>::empty(),
    decreases b.len(),
{
    let one = seq![Some(quad)];
    let none = seq![None::<QuadView>];
    assert(one.drop_last() =~= Seq::empty());
    assert(none.drop_last() =~= Seq::empty());
    assert(parsed_only(one.drop_last()) =~= Seq::empty());
    assert(one.last() == Some(quad));
    assert(parsed_only(one) =~= seq![quad]);
    assert(none.last() is None);
    if b.len() == 0 {
        assert(a + b =~= a);
        assert(parsed_only(a) + parsed_only(b) =~= parsed_only(a));
    } else {
        lemma_kept(a, b.drop_last(), quad);
        assert((a + b).drop_last() =~= a + b.drop_last());
        assert((a + b).last() == b.last());
        assert(parsed_only(a + b) =~= parsed_only(a) + parsed_only(b));
    }
}

/// If every quad could be parsed, all of them are kept.
pub proof fn lemma_all_kept(quads: Seq<QuadView>)
    ensures
        parsed_only(quads.map_values(|quad: QuadView| Some(quad))) == quads,
    decreases quads.len(),
{
    let all = quads.map_values(|quad: QuadView| Some(quad));
    if quads.len() > 0 {
        lemma_all_kept(quads.drop_last());
        assert(all.drop_last() =~= quads.drop_last().map_values(|quad: QuadView| Some(quad)));
        assert(parsed_only(all) =~= quads);
    } else {
        assert(parsed_only(all) =~= quads);
    }
}

/// What a file is parsed as is what the parser gives for its settings, the bytes of the file and
/// what is drawn at random, each quad at its place; nothing is drawn for the formats of which lines
/// can be parsed one by one.
pub proof fn lemma_quads_of(
    settings: ParserSettings,
    bytes: Seq<u8>,
    quads: Seq<Option<QuadView>>,
)
    requires
        are_quads_of(settings, bytes, quads),
    ensures
        exists|drawn: Seq<Seq<char>>| quads == #[trigger] file_quads(settings, bytes, drawn),
        settings.format is NQuads || settings.format is NTriples ==> quads == file_quads(
            settings,
            bytes,
            Seq::empty(),
        ),
{
}

} // verus!
