//! Whole documents: from the lines of a text to a host value, and from a
//! host value to the text of one document or of a stream of documents.

use vstd::prelude::*;
use crate::decode::{decode, strip_document_marker, strip_marker, yaml_to_value};
use crate::encode::{encode, gather, lemma_gather_fails, lemma_gather_step, value_to_yaml};
use crate::engine::{
    document_start, emit_document, emit_result, emit_writable, parse_documents, parse_result,
};
use crate::text::{lemma_starts_with_more, starts_with};
use crate::error::{Error, ErrorView};
use crate::node::{emittable, node_views, well_formed, Node, NodeView};
use crate::value::{
    lemma_keys_view, lemma_list_view, text_option_view, text_options_view, value_views, Data,
    DataView, Value, ValueView,
};

verus! {

/// The lines with a line end between each two of them.
pub open spec fn join_lines(lines: Seq<Seq<char>>) -> Seq<char>
    decreases lines.len(),
{
    if lines.len() == 0 {
        Seq::empty()
    } else if lines.len() == 1 {
        lines[0]
    } else {
        join_lines(lines.drop_last()) + seq!['\n'] + lines.last()
    }
}

/// The lines that are there, in order.
pub open spec fn present_lines(lines: Seq<Option<Seq<char>>>) -> Seq<Seq<char>> {
    Seq::new(lines.len(), |i: int| lines[i]->Some_0)
}

/// The text that the lines make, with a line end between each two of them;
/// a failure where one of them is missing.
pub open spec fn collapsed(lines: Seq<Option<Seq<char>>>) -> Result<Seq<char>, ErrorView> {
    if exists|i: int| 0 <= i < lines.len() && lines[i] is None {
        Err(ErrorView::MissingLine)
    } else {
        Ok(join_lines(present_lines(lines)))
    }
}

/// Joins the lines of a text with line ends.
pub fn collapse_lines(lines: &Vec<Option<String>>) -> (r: Result<String, Error>)
    ensures
        match r {
            Ok(text) => collapsed(text_options_view(lines@)) == Ok::<Seq<char>, ErrorView>(text@),
            Err(e) => collapsed(text_options_view(lines@)) == Err::<Seq<char>, ErrorView>(e@),
        },
{
    let ghost all = text_options_view(lines@);
    let mut out = String::new();
    let mut i: usize = 0;
    assert(present_lines(all).take(0) =~= Seq::empty());
    while i < lines.len()
        invariant
            i <= lines.len(),
            all == text_options_view(lines@),
            forall|j: int| 0 <= j < i ==> (#[trigger] all[j]) is Some,
            out@ == join_lines(present_lines(all).take(i as int)),
        decreases lines.len() - i,
    {
        assert(all[i as int] == text_option_view(lines@[i as int]));
        match &lines[i] {
            None => {
                return Err(Error::MissingLine);
            },
            Some(line) => {
                let ghost before = present_lines(all).take(i as int);
                let ghost after = present_lines(all).take(i + 1);
                assert(after.drop_last() =~= before);
                assert(after.last() == line@);
                if i > 0 {
                    proof {
                        reveal_strlit("\n");
                    }
                    out.append("\n");
                    assert("\n"@ =~= seq!['\n']);
                }
                out.append(line.as_str());
                assert(out@ =~= join_lines(after));
            },
        }
        i = i + 1;
    }
    assert(present_lines(all).take(lines.len() as int) =~= present_lines(all));
    Ok(out)
}

/// The value of a text: that of its first document, and the null value for
/// a text without a document.
pub open spec fn parse_text(text: Seq<char>) -> Result<ValueView, ErrorView> {
    match parse_result(text) {
        Err(e) => Err(e),
        Ok(docs) => if docs.len() == 0 {
            Ok(ValueView::null())
        } else {
            decode(docs[0])
        },
    }
}

/// The value of a text given by its lines.
pub open spec fn parse(lines: Seq<Option<Seq<char>>>) -> Result<ValueView, ErrorView> {
    match collapsed(lines) {
        Err(e) => Err(e),
        Ok(text) => parse_text(text),
    }
}

/// Reads the first YAML document of a text, given by its lines, into a host
/// value. A text without a document gives the null value.
pub fn parse_yaml(lines: &Vec<Option<String>>) -> (r: Result<Value, Error>)
    ensures
        match r {
            Ok(v) => parse(text_options_view(lines@)) == Ok::<ValueView, ErrorView>(v@),
            Err(e) => parse(text_options_view(lines@)) == Err::<ValueView, ErrorView>(e@),
        },
{
    let text = match collapse_lines(lines) {
        Ok(text) => text,
        Err(e) => {
            return Err(e);
        },
    };
    let docs = match parse_documents(text.as_str()) {
        Ok(docs) => docs,
        Err(e) => {
            return Err(e);
        },
    };
    if docs.len() == 0 {
        Ok(Value::plain(Data::Null))
    } else {
        assert(node_views(docs@)[0] == docs@[0]@);
        yaml_to_value(&docs[0])
    }
}

/// The text of a stream of the first `n` documents: each document as the
/// emitter writes it, from its document-start marker on, and a line end
/// after it; or the first failure.
pub open spec fn stream_text(docs: Seq<NodeView>, n: nat) -> Result<Seq<char>, ErrorView>
    decreases n,
{
    if n == 0 || n > docs.len() {
        Ok(Seq::empty())
    } else {
        match stream_text(docs, (n - 1) as nat) {
            Err(e) => Err(e),
            Ok(text) => match emit_result(docs[n - 1], true) {
                Err(e) => Err(e),
                Ok(document) => Ok(text + document + seq!['\n']),
            },
        }
    }
}

/// The text of documents: nothing for no document; in a stream, the text of
/// every document; otherwise the text of the first document alone.
pub open spec fn documents_text(docs: Seq<NodeView>, multi: bool) -> Result<Seq<char>, ErrorView> {
    if docs.len() == 0 {
        Ok(Seq::empty())
    } else if multi {
        stream_text(docs, docs.len())
    } else {
        emit_result(docs[0], true)
    }
}

/// Once the first documents hold a failure, that failure is the outcome.
pub proof fn lemma_stream_fails(docs: Seq<NodeView>, n: nat, m: nat)
    requires
        n <= m <= docs.len(),
        stream_text(docs, n) is Err,
    ensures
        stream_text(docs, m) == stream_text(docs, n),
    decreases m - n,
{
    if n < m {
        lemma_stream_fails(docs, n, (m - 1) as nat);
    }
}

/// Writes documents as text: one document, or a stream of all of them.
pub fn emit_yaml_documents(docs: &Vec<Node>, multi: bool) -> (r: Result<String, Error>)
    ensures
        match r {
            Ok(text) => documents_text(node_views(docs@), multi) == Ok::<Seq<char>, ErrorView>(
                text@,
            ),
            Err(e) => documents_text(node_views(docs@), multi) == Err::<Seq<char>, ErrorView>(e@),
        },
        r matches Ok(text) ==> docs.len() > 0 ==> starts_with(text@, document_start()),
{
    emit_each(docs, multi, false)
}

/// Writes documents as text. Where the documents are `known` to have a
/// text form, their form is not tested again.
fn emit_each(docs: &Vec<Node>, multi: bool, known: bool) -> (r: Result<String, Error>)
    requires
        known ==> forall|i: int|
            0 <= i < docs.len() ==> well_formed(#[trigger] node_views(docs@)[i]) && emittable(
                node_views(docs@)[i],
            ),
    ensures
        match r {
            Ok(text) => documents_text(node_views(docs@), multi) == Ok::<Seq<char>, ErrorView>(
                text@,
            ),
            Err(e) => documents_text(node_views(docs@), multi) == Err::<Seq<char>, ErrorView>(e@),
        },
        r matches Ok(text) ==> docs.len() > 0 ==> starts_with(text@, document_start()),
{
    if docs.len() == 0 {
        return Ok(String::new());
    }
    let ghost nodes = node_views(docs@);
    let count: usize = if multi {
        docs.len()
    } else {
        1
    };
    let mut out = String::new();
    let mut i: usize = 0;
    while i < count
        invariant
            i <= count <= docs.len(),
            multi ==> count == docs.len(),
            !multi ==> count == 1,
            nodes == node_views(docs@),
            known ==> forall|i: int|
                0 <= i < docs.len() ==> well_formed(#[trigger] nodes[i]) && emittable(nodes[i]),
            multi ==> stream_text(nodes, i as nat) == Ok::<Seq<char>, ErrorView>(out@),
            multi && i > 0 ==> starts_with(out@, document_start()),
            !multi && i > 0 ==> emit_result(nodes[0], true) == Ok::<Seq<char>, ErrorView>(out@)
                && starts_with(out@, document_start()),
            i == 0 ==> out@ == Seq::<char>::empty(),
        decreases count - i,
    {
        assert(nodes[i as int] == docs@[i as int]@);
        let written = if known {
            emit_writable(&docs[i], true)
        } else {
            emit_document(&docs[i], true)
        };
        match written {
            Ok(document) => {
                let ghost before = out@;
                out.append(document.as_str());
                if multi {
                    out.append("\n");
                    proof {
                        reveal_strlit("\n");
                        assert("\n"@ =~= seq!['\n']);
                        assert(out@ =~= before + document@ + seq!['\n']);
                        if i == 0 {
                            assert(before + document@ =~= document@);
                            lemma_starts_with_more(document@, document_start(), seq!['\n']);
                        } else {
                            lemma_starts_with_more(
                                before,
                                document_start(),
                                document@ + seq!['\n'],
                            );
                            assert(before + (document@ + seq!['\n']) =~= out@);
                        }
                    }
                } else {
                    assert(out@ =~= document@);
                }
            },
            Err(e) => {
                proof {
                    if multi {
                        lemma_stream_fails(nodes, (i + 1) as nat, docs.len() as nat);
                    }
                }
                return Err(e);
            },
        }
        i = i + 1;
    }
    Ok(out)
}

/// The encodings of the values.
pub open spec fn encodings(items: Seq<ValueView>) -> Seq<Result<NodeView, ErrorView>> {
    Seq::new(items.len(), |i: int| encode(items[i]))
}

/// The text of a value: in a stream, the value is a list and each of its
/// elements a document; otherwise the value is the one document.
pub open spec fn formatted(v: ValueView, multi: bool) -> Result<Seq<char>, ErrorView> {
    if multi {
        match v.data {
            DataView::List(items) => match gather(encodings(items)) {
                Err(e) => Err(e),
                Ok(docs) => documents_text(docs, true),
            },
            _ => Err(ErrorView::NotAList),
        }
    } else {
        match encode(v) {
            Err(e) => Err(e),
            Ok(node) => documents_text(seq![node], false),
        }
    }
}

/// Whether the text of a value holds a document: always but for a stream of
/// no document.
pub open spec fn has_document(v: ValueView, multi: bool) -> bool {
    multi ==> (v.data matches DataView::List(items) && items.len() > 0)
}

/// Encodes a value and writes it as text: one document, or, with `multi`,
/// a stream with one document for each element of the list that the value
/// then has to be. The text of a document begins with the document-start
/// marker.
pub fn format_yaml(value: &Value, multi: bool) -> (r: Result<String, Error>)
    ensures
        match r {
            Ok(text) => formatted(value@, multi) == Ok::<Seq<char>, ErrorView>(text@),
            Err(e) => formatted(value@, multi) == Err::<Seq<char>, ErrorView>(e@),
        },
        r matches Ok(text) ==> has_document(value@, multi) ==> starts_with(
            text@,
            document_start(),
        ),
{
    proof {
        lemma_keys_view(*value);
    }
    if multi {
        let items = match &value.data {
            Data::List(items) => items,
            _ => {
                return Err(Error::NotAList);
            },
        };
        proof {
            lemma_list_view(*items);
        }
        let ghost all = encodings(value_views(items@));
        let mut docs: Vec<Node> = Vec::new();
        let mut i: usize = 0;
        assert(all.take(0) =~= Seq::empty());
        assert(node_views(docs@) =~= Seq::empty());
        while i < items.len()
            invariant
                i <= items.len(),
                multi,
                value@.data == DataView::List(value_views(items@)),
                all == encodings(value_views(items@)),
                gather(all.take(i as int)) == Ok::<Seq<NodeView>, ErrorView>(node_views(docs@)),
                docs.len() == i,
                forall|j: int|
                    0 <= j < i ==> well_formed(#[trigger] node_views(docs@)[j]) && emittable(
                        node_views(docs@)[j],
                    ),
            decreases items.len() - i,
        {
            proof {
                lemma_gather_step(all, i as int);
                assert(value_views(items@)[i as int] == items@[i as int]@);
            }
            let ghost before = node_views(docs@);
            match value_to_yaml(&items[i]) {
                Ok(node) => {
                    docs.push(node);
                },
                Err(e) => {
                    proof {
                        lemma_gather_fails(all, i + 1);
                    }
                    return Err(e);
                },
            }
            assert(node_views(docs@) =~= before.push(all[i as int]->Ok_0));
            i = i + 1;
        }
        assert(all.take(items.len() as int) =~= all);
        emit_each(&docs, true, true)
    } else {
        match value_to_yaml(value) {
            Ok(node) => {
                let docs = vec![node];
                assert(node_views(docs@) =~= seq![node@]);
                emit_each(&docs, false, true)
            },
            Err(e) => Err(e),
        }
    }
}

/// The text that closes a file: the document-end marker on a line of its
/// own, after a line end where the text does not end with one.
pub open spec fn closing(multi: bool) -> Seq<char> {
    if multi {
        "...\n"@
    } else {
        "\n...\n"@
    }
}

/// The text of a file for a value: the formatted value and, behind it, the
/// document-end marker; the empty text, without any marker, for a stream of
/// no document.
pub open spec fn file_text(v: ValueView, multi: bool) -> Result<Seq<char>, ErrorView> {
    match formatted(v, multi) {
        Ok(text) => Ok(
            if has_document(v, multi) {
                text + closing(multi)
            } else {
                Seq::empty()
            },
        ),
        Err(e) => Err(e),
    }
}

/// Encodes a value into the text of a file: the formatted value and, behind
/// it, the document-end marker. A stream of no document is the empty text; a
/// file that holds a document begins with the document-start marker.
pub fn write_yaml(value: &Value, multi: bool) -> (r: Result<String, Error>)
    ensures
        match r {
            Ok(text) => file_text(value@, multi) == Ok::<Seq<char>, ErrorView>(text@),
            Err(e) => file_text(value@, multi) == Err::<Seq<char>, ErrorView>(e@),
        },
        r matches Ok(text) ==> has_document(value@, multi) ==> starts_with(
            text@,
            document_start(),
        ),
{
    proof {
        lemma_keys_view(*value);
    }
    let holds: bool = !multi || match &value.data {
        Data::List(items) => {
            proof {
                lemma_list_view(*items);
            }
            items.len() > 0
        },
        _ => false,
    };
    match format_yaml(value, multi) {
        Ok(text) => {
            if !holds {
                return Ok(String::new());
            }
            let mut out = text;
            if multi {
                out.append("...\n");
            } else {
                out.append("\n...\n");
            }
            proof {
                lemma_starts_with_more(text@, document_start(), closing(multi));
            }
            Ok(out)
        },
        Err(e) => Err(e),
    }
}

/// The text of one document for display, without its document-start
/// marker; the text of a stream as it is.
pub open spec fn body(text: Seq<char>, multi: bool) -> Seq<char> {
    if multi {
        text
    } else {
        strip_marker(text)
    }
}

/// Removes the document-start marker from the text of one document; a stream
/// keeps its markers.
pub fn yaml_body(yaml: &str, multi: bool) -> (r: &str)
    ensures
        r@ == body(yaml@, multi),
{
    if multi {
        yaml
    } else {
        strip_document_marker(yaml)
    }
}

} // verus!
