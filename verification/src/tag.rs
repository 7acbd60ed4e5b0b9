//! Tag attributes: telling the tags of the core schema from custom tags, and
//! splitting a custom tag into its handle and its suffix.

use vstd::prelude::*;
use crate::error::{Error, ErrorView};
use crate::node::{Node, NodeView, Scalar, ScalarView, Tag, TagView};
use crate::text::{chars_of, has_prefix, push_all, starts_with, text_of};

verus! {

/// Whether `c` is white space: the characters that Unicode gives the
/// property `White_Space`.
pub open spec fn is_space(c: char) -> bool {
    let u = c as u32;
    (0x09 <= u <= 0x0d) || u == 0x20 || u == 0x85 || u == 0xa0 || u == 0x1680 || (0x2000 <= u
        <= 0x200a) || u == 0x2028 || u == 0x2029 || u == 0x202f || u == 0x205f || u == 0x3000
}

/// `s` without the white space at its start.
pub open spec fn trim_start(s: Seq<char>) -> Seq<char>
    decreases s.len(),
{
    if s.len() > 0 && is_space(s[0]) {
        trim_start(s.drop_first())
    } else {
        s
    }
}

/// `s` without the white space at its end.
pub open spec fn trim_end(s: Seq<char>) -> Seq<char>
    decreases s.len(),
{
    if s.len() > 0 && is_space(s.last()) {
        trim_end(s.drop_last())
    } else {
        s
    }
}

/// `s` without the white space at its start and at its end.
pub open spec fn trimmed(s: Seq<char>) -> Seq<char> {
    trim_end(trim_start(s))
}

/// Tests whether `c` is white space.
pub fn is_space_char(c: char) -> (r: bool)
    ensures
        r == is_space(c),
{
    let u: u32 = c as u32;
    (0x09 <= u && u <= 0x0d) || u == 0x20 || u == 0x85 || u == 0xa0 || u == 0x1680 || (0x2000
        <= u && u <= 0x200a) || u == 0x2028 || u == 0x2029 || u == 0x202f || u == 0x205f || u
        == 0x3000
}

/// Trimming the start of a text whose first `i` characters are white space
/// is trimming what follows them.
proof fn lemma_trim_start_skips(s: Seq<char>, i: int)
    requires
        0 <= i <= s.len(),
        forall|k: int| 0 <= k < i ==> is_space(#[trigger] s[k]),
    ensures
        trim_start(s) == trim_start(s.subrange(i, s.len() as int)),
    decreases i,
{
    if i > 0 {
        assert(s.drop_first().subrange(i - 1, s.len() - 1) =~= s.subrange(i, s.len() as int));
        assert forall|k: int| 0 <= k < i - 1 implies is_space(#[trigger] s.drop_first()[k]) by {
            assert(s.drop_first()[k] == s[k + 1]);
        }
        lemma_trim_start_skips(s.drop_first(), i - 1);
    } else {
        assert(s.subrange(0, s.len() as int) =~= s);
    }
}

/// Trimming the end of a text whose characters from `j` on are white space
/// is trimming what precedes them.
proof fn lemma_trim_end_skips(s: Seq<char>, j: int)
    requires
        0 <= j <= s.len(),
        forall|k: int| j <= k < s.len() ==> is_space(#[trigger] s[k]),
    ensures
        trim_end(s) == trim_end(s.subrange(0, j)),
    decreases s.len() - j,
{
    if j < s.len() {
        assert(s.drop_last().subrange(0, j) =~= s.subrange(0, j));
        assert forall|k: int| j <= k < s.len() - 1 implies is_space(#[trigger] s.drop_last()[k]) by {
            assert(s.drop_last()[k] == s[k]);
        }
        lemma_trim_end_skips(s.drop_last(), j);
    } else {
        assert(s.subrange(0, s.len() as int) =~= s);
    }
}

/// The characters of `s` without the white space at both ends.
pub fn trim(s: &Vec<char>) -> (r: Vec<char>)
    ensures
        r@ == trimmed(s@),
{
    let mut i: usize = 0;
    while i < s.len() && is_space_char(s[i])
        invariant
            i <= s.len(),
            forall|k: int| 0 <= k < i ==> is_space(#[trigger] s@[k]),
        decreases s.len() - i,
    {
        i = i + 1;
    }
    let mut j: usize = s.len();
    while j > i && is_space_char(s[j - 1])
        invariant
            i <= j <= s.len(),
            forall|k: int| j <= k < s.len() ==> is_space(#[trigger] s@[k]),
        decreases j,
    {
        j = j - 1;
    }
    let mut r: Vec<char> = Vec::new();
    let mut k: usize = i;
    while k < j
        invariant
            i <= k <= j <= s.len(),
            r@ == s@.subrange(i as int, k as int),
        decreases j - k,
    {
        r.push(s[k]);
        assert(s@.subrange(i as int, k as int).push(s@[k as int]) =~= s@.subrange(
            i as int,
            k + 1,
        ));
        k = k + 1;
    }
    proof {
        let rest = s@.subrange(i as int, s.len() as int);
        lemma_trim_start_skips(s@, i as int);
        // Nothing more leaves at the start.
        assert(trim_start(rest) == rest) by {
            if rest.len() > 0 {
                assert(rest[0] == s@[i as int]);
            }
        }
        assert forall|k: int| j - i <= k < rest.len() implies is_space(#[trigger] rest[k]) by {
            assert(rest[k] == s@[k + i]);
        }
        lemma_trim_end_skips(rest, j - i);
        assert(rest.subrange(0, j - i) =~= r@);
        assert(trim_end(r@) == r@) by {
            if r@.len() > 0 {
                assert(r@.last() == s@[j - 1]);
            }
        }
    }
    r
}

/// Whether the text begins with one of the prefixes that mark the tags of
/// the core schema, white space at its ends aside.
pub open spec fn core_schema_tag(tag: Seq<char>) -> bool {
    let t = trimmed(tag);
    starts_with(t, "!!"@) || starts_with(t, "!<tag:yaml.org,2002:"@) || starts_with(
        t,
        "!tag:yaml.org,2002:"@,
    ) || starts_with(t, "<tag:yaml.org,2002:"@) || starts_with(t, "tag:yaml.org,2002:"@)
}

/// Tests whether a tag attribute names a tag of the core schema; such a tag
/// counts as no custom tag.
pub fn is_core_schema_tag(tag: &str) -> (r: bool)
    ensures
        r == core_schema_tag(tag@),
{
    let t = trim(&chars_of(tag));
    has_prefix(&t, &chars_of("!!")) || has_prefix(&t, &chars_of("!<tag:yaml.org,2002:"))
        || has_prefix(&t, &chars_of("!tag:yaml.org,2002:")) || has_prefix(
        &t,
        &chars_of("<tag:yaml.org,2002:"),
    ) || has_prefix(&t, &chars_of("tag:yaml.org,2002:"))
}

/// The position of the last `!` in `s`, or -1 where there is none.
pub open spec fn last_bang(s: Seq<char>) -> int
    decreases s.len(),
{
    if s.len() == 0 {
        -1
    } else if s.last() == '!' {
        s.len() - 1
    } else {
        last_bang(s.drop_last())
    }
}

/// `last_bang` finds a `!` after which no other follows.
pub proof fn lemma_last_bang(s: Seq<char>)
    ensures
        -1 <= last_bang(s) < s.len(),
        last_bang(s) >= 0 ==> s[last_bang(s)] == '!',
        forall|k: int| last_bang(s) < k < s.len() ==> #[trigger] s[k] != '!',
    decreases s.len(),
{
    if s.len() > 0 && s.last() != '!' {
        lemma_last_bang(s.drop_last());
        assert forall|k: int| last_bang(s) < k < s.len() implies #[trigger] s[k] != '!' by {
            if k < s.len() - 1 {
                assert(s.drop_last()[k] == s[k]);
            }
        }
    }
}

/// The tag that a text names: what precedes its last `!` is the handle, `!`
/// where that is empty, and what follows is the suffix. A text without `!`,
/// or with nothing after its last `!`, names no tag.
pub open spec fn split_tag(s: Seq<char>) -> Result<TagView, ErrorView> {
    let at = last_bang(s);
    if at < 0 || at + 1 >= s.len() {
        Err(ErrorView::MalformedTag(s))
    } else {
        Ok(
            TagView {
                handle: if at == 0 {
                    seq!['!']
                } else {
                    s.subrange(0, at)
                },
                suffix: s.subrange(at + 1, s.len() as int),
            },
        )
    }
}

/// Splits a tag attribute into handle and suffix at its last `!`.
pub fn parse_tag_string(tag: &str) -> (r: Result<Tag, Error>)
    ensures
        match r {
            Ok(t) => split_tag(tag@) == Ok::<TagView, ErrorView>(t@),
            Err(e) => split_tag(tag@) == Err::<TagView, ErrorView>(e@),
        },
{
    let s = chars_of(tag);
    let mut at: usize = s.len();
    assert(s@.subrange(0, s.len() as int) =~= s@);
    while at > 0 && s[at - 1] != '!'
        invariant
            at <= s.len(),
            last_bang(s@) == last_bang(s@.subrange(0, at as int)),
        decreases at,
    {
        proof {
            let head = s@.subrange(0, at as int);
            assert(head.drop_last() =~= s@.subrange(0, at - 1));
        }
        at = at - 1;
    }
    if at == 0 || at >= s.len() {
        proof {
            let head = s@.subrange(0, at as int);
            if at > 0 {
                assert(head.last() == '!');
            }
        }
        return Err(Error::MalformedTag(text_of(&s)));
    }
    proof {
        let head = s@.subrange(0, at as int);
        assert(head.last() == '!');
        assert(last_bang(s@) == at - 1);
    }
    let bang: usize = at - 1;
    let mut handle: Vec<char> = Vec::new();
    if bang == 0 {
        handle.push('!');
        assert(handle@ =~= seq!['!']);
    } else {
        let mut k: usize = 0;
        while k < bang
            invariant
                k <= bang < s.len(),
                handle@ == s@.subrange(0, k as int),
            decreases bang - k,
        {
            handle.push(s[k]);
            assert(s@.subrange(0, k as int).push(s@[k as int]) =~= s@.subrange(0, k + 1));
            k = k + 1;
        }
    }
    let mut suffix: Vec<char> = Vec::new();
    let mut k: usize = at;
    while k < s.len()
        invariant
            at <= k <= s.len(),
            suffix@ == s@.subrange(at as int, k as int),
        decreases s.len() - k,
    {
        suffix.push(s[k]);
        assert(s@.subrange(at as int, k as int).push(s@[k as int]) =~= s@.subrange(
            at as int,
            k + 1,
        ));
        k = k + 1;
    }
    Ok(Tag { handle: text_of(&handle), suffix: text_of(&suffix) })
}

/// The custom tag that a tag attribute asks for: none without an attribute,
/// none for an attribute that names a tag of the core schema, and otherwise
/// the tag that the trimmed attribute names. An attribute that names no tag,
/// the empty text among them, is a failure.
pub open spec fn custom_tag(attribute: Option<Seq<char>>) -> Result<Option<TagView>, ErrorView> {
    match attribute {
        None => Ok(None),
        Some(text) => {
            let t = trimmed(text);
            if core_schema_tag(t) {
                Ok(None)
            } else {
                match split_tag(t) {
                    Ok(tag) => Ok(Some(tag)),
                    Err(e) => Err(e),
                }
            }
        },
    }
}

/// Trimming twice is trimming once.
pub proof fn lemma_trimmed_twice(s: Seq<char>)
    ensures
        trimmed(trimmed(s)) == trimmed(s),
{
    lemma_trim_start_stable(s);
    lemma_trim_end_keeps_start(trim_start(s));
    lemma_trim_end_stable(trim_start(s));
}

/// What `trim_start` leaves does not begin with white space.
proof fn lemma_trim_start_stable(s: Seq<char>)
    ensures
        trim_start(s).len() > 0 ==> !is_space(trim_start(s)[0]),
        trim_start(trim_start(s)) == trim_start(s),
    decreases s.len(),
{
    if s.len() > 0 && is_space(s[0]) {
        lemma_trim_start_stable(s.drop_first());
    }
}

/// What `trim_end` leaves does not end with white space.
proof fn lemma_trim_end_stable(s: Seq<char>)
    ensures
        trim_end(s).len() > 0 ==> !is_space(trim_end(s).last()),
        trim_end(trim_end(s)) == trim_end(s),
    decreases s.len(),
{
    if s.len() > 0 && is_space(s.last()) {
        lemma_trim_end_stable(s.drop_last());
    }
}

/// Trimming the end of a text that does not begin with white space leaves a
/// text that does not begin with white space.
proof fn lemma_trim_end_keeps_start(s: Seq<char>)
    requires
        s.len() > 0 ==> !is_space(s[0]),
    ensures
        trim_start(trim_end(s)) == trim_end(s),
    decreases s.len(),
{
    if s.len() > 0 && is_space(s.last()) {
        if s.len() > 1 {
            assert(s.drop_last()[0] == s[0]);
        }
        lemma_trim_end_keeps_start(s.drop_last());
    }
}

/// Reads the tag attribute of a value.
pub fn extract_yaml_tag(attribute: &Option<String>) -> (r: Result<Option<Tag>, Error>)
    ensures
        match r {
            Ok(Some(t)) => custom_tag(crate::value::text_option_view(*attribute)) == Ok::<
                Option<TagView>,
                ErrorView,
            >(Some(t@)),
            Ok(None) => custom_tag(crate::value::text_option_view(*attribute)) == Ok::<
                Option<TagView>,
                ErrorView,
            >(None),
            Err(e) => custom_tag(crate::value::text_option_view(*attribute)) == Err::<
                Option<TagView>,
                ErrorView,
            >(e@),
        },
{
    match attribute {
        None => Ok(None),
        Some(text) => {
            let t = trim(&chars_of(text.as_str()));
            let cut = text_of(&t);
            proof {
                lemma_trimmed_twice(text@);
            }
            if is_core_schema_tag(cut.as_str()) {
                Ok(None)
            } else {
                match parse_tag_string(cut.as_str()) {
                    Ok(tag) => Ok(Some(tag)),
                    Err(e) => Err(e),
                }
            }
        },
    }
}

/// The node under the tag, or the node itself where there is none.
pub open spec fn with_tag(tag: Option<TagView>, node: NodeView) -> NodeView {
    match tag {
        Some(t) => NodeView::Tagged(t, Box::new(node)),
        None => node,
    }
}

/// Wraps the node in the custom tag that the attribute asks for.
pub fn apply_tag_if_present(attribute: &Option<String>, node: Node) -> (r: Result<Node, Error>)
    ensures
        match r {
            Ok(n) => custom_tag(crate::value::text_option_view(*attribute)) matches Ok(tag)
                && n@ == with_tag(tag, node@),
            Err(e) => custom_tag(crate::value::text_option_view(*attribute)) == Err::<
                Option<TagView>,
                ErrorView,
            >(e@),
        },
{
    match extract_yaml_tag(attribute) {
        Ok(Some(tag)) => Ok(Node::Tagged(tag, Box::new(node))),
        Ok(None) => Ok(node),
        Err(e) => Err(e),
    }
}

/// The tag of dates and instants: `!timestamp`.
pub open spec fn timestamp_tag_view() -> TagView {
    TagView { handle: seq!['!'], suffix: "timestamp"@ }
}

/// The tag of dates and instants.
pub fn timestamp_tag() -> (t: Tag)
    ensures
        t@ == timestamp_tag_view(),
{
    let mut handle = String::new();
    handle.push('!');
    assert(handle@ =~= seq!['!']);
    Tag { handle, suffix: String::from_str("timestamp") }
}

/// A rendered date or instant under the timestamp tag.
pub open spec fn timestamp_node(text: Seq<char>) -> NodeView {
    NodeView::Tagged(timestamp_tag_view(), Box::new(NodeView::Value(ScalarView::Text(text))))
}

/// Puts the text of a date or an instant under the timestamp tag.
pub fn tagged_timestamp(text: String) -> (n: Node)
    ensures
        n@ == timestamp_node(text@),
{
    let inner = Node::Value(Scalar::Text(text));
    assert(inner@ == NodeView::Value(ScalarView::Text(text@)));
    Node::Tagged(timestamp_tag(), Box::new(inner))
}

impl Tag {
    /// The tag as it is written in a document.
    pub fn render(&self) -> (r: String)
        ensures
            r@ == self@.rendered(),
    {
        let handle = chars_of(self.handle.as_str());
        let suffix = chars_of(self.suffix.as_str());
        let mut out: Vec<char> = Vec::new();
        if handle.len() == 1 && handle[0] == '!' {
            assert(handle@ =~= seq!['!']);
            out.push('!');
            push_all(&mut out, &suffix);
            assert(out@ =~= seq!['!'] + suffix@);
        } else {
            push_all(&mut out, &handle);
            out.push('!');
            push_all(&mut out, &suffix);
            assert(out@ =~= handle@ + seq!['!'] + suffix@);
        }
        text_of(&out)
    }
}

/// A custom tag is written as the text it was split from: splitting a text
/// that does not begin with `!!` and rendering the tag gives the text back.
pub proof fn lemma_split_then_render(s: Seq<char>)
    requires
        split_tag(s) is Ok,
        !starts_with(s, seq!['!', '!']),
    ensures
        split_tag(s)->Ok_0.rendered() == s,
{
    lemma_last_bang(s);
    let at = last_bang(s);
    let tag = split_tag(s)->Ok_0;
    if at == 0 {
        assert(seq!['!'] + s.subrange(1, s.len() as int) =~= s);
    } else {
        if tag.handle == seq!['!'] {
            assert(s.subrange(0, at).len() == at);
            assert(seq!['!'].len() == 1);
            assert(at == 1);
            assert(s.subrange(0, 1)[0] == '!');
            assert(s.take(2) =~= seq!['!', '!']);
        }
        assert(s.subrange(0, at) + seq!['!'] + s.subrange(at + 1, s.len() as int) =~= s);
    }
}

} // verus!
