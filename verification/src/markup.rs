//! Markup fragments and the elements that the download section is built from.
//!
//! Fragments are held as the text they print. The elements themselves come
//! from `axohtml`: each one is built and printed there, with the markup of its
//! children placed into it as it is.

use vstd::prelude::*;

verus! {

/// A self-contained piece of markup, as a renderer returns it.
#[derive(Clone, Debug, PartialEq, Eq)]
pub struct Fragment {
    pub markup: String,
}

impl View for Fragment {
    type V = Seq<char>;

    open spec fn view(&self) -> Seq<char> {
        self.markup@
    }
}

/// One runnable installer as it is shown: its label, and the fragment that
/// holds the label as a heading above the rendered script.
#[derive(Clone, Debug, PartialEq, Eq)]
pub struct ScriptWidget {
    pub label: String,
    pub fragment: Fragment,
}

/// The class of the region that holds the script widgets.
pub const SCRIPTS_CLASS: &'static str = "package-managers-downloads";

/// What stands for the character `c` in the text of markup: an entity for
/// each of the five characters that markup reserves, else `c` itself.
pub open spec fn escaped_char(c: char) -> Seq<char> {
    if c == '"' {
        "&quot;"@
    } else if c == '&' {
        "&amp;"@
    } else if c == '\'' {
        "&#x27;"@
    } else if c == '<' {
        "&lt;"@
    } else if c == '>' {
        "&gt;"@
    } else {
        seq![c]
    }
}

/// The text of a text node as it appears in markup: each character escaped,
/// in order.
pub open spec fn escaped_text(text: Seq<char>) -> Seq<char> {
    text.flat_map(|c: char| escaped_char(c))
}

/// A third-level heading around `inner`.
pub open spec fn heading_element(inner: Seq<char>) -> Seq<char> {
    "<h3>"@ + inner + "</h3>"@
}

/// A `div` around `inner`, with the class attribute `class` unless that is empty.
pub open spec fn div_element(class: Seq<char>, inner: Seq<char>) -> Seq<char> {
    if class.len() == 0 {
        "<div>"@ + inner + "</div>"@
    } else {
        "<div class=\""@ + class + "\">"@ + inner + "</div>"@
    }
}

/// `c` is one of `a` to `z` or `A` to `Z`.
pub open spec fn is_ascii_letter(c: char) -> bool {
    ('a' as u32 <= c as u32 <= 'z' as u32) || ('A' as u32 <= c as u32 <= 'Z' as u32)
}

/// `c` may stand in a class name: an ASCII letter or digit, `_`, `-` or `.`.
pub open spec fn is_class_char(c: char) -> bool {
    is_ascii_letter(c) || ('0' as u32 <= c as u32 <= '9' as u32) || c == '_' || c == '-' || c
        == '.'
}

/// `name` is a single class name made of ASCII letters, digits, `_`, `-` and
/// `.`, starting with a letter.
pub open spec fn is_class_name(name: Seq<char>) -> bool {
    &&& name.len() > 0
    &&& is_ascii_letter(name[0])
    &&& forall|i: int| 0 <= i < name.len() ==> is_class_char(#[trigger] name[i])
}

/// An empty container: what a header is when there is no release.
pub open spec fn empty_container_markup() -> Seq<char> {
    div_element(Seq::empty(), Seq::empty())
}

/// The markup of a script widget: a container with the label as its heading,
/// followed by the rendered script.
pub open spec fn widget_markup(label: Seq<char>, script: Seq<char>) -> Seq<char> {
    div_element(Seq::empty(), heading_element(escaped_text(label)) + script)
}

/// The markup of each widget, in order.
pub open spec fn widget_markups(widgets: Seq<ScriptWidget>) -> Seq<Seq<char>> {
    widgets.map_values(|w: ScriptWidget| w.fragment@)
}

/// The markup of the whole section: a container that holds the script region,
/// with the script widgets one after another, and then the table region.
pub open spec fn page_markup(scripts: Seq<Seq<char>>, table: Seq<char>) -> Seq<char> {
    div_element(
        Seq::empty(),
        div_element(SCRIPTS_CLASS@, scripts.flatten()) + div_element(Seq::empty(), table),
    )
}

/// Renders `text` as a text node of `axohtml` (`TextNode::new`, then its
/// `Display`, which escapes with `encode_minimal` of `htmlescape`). The
/// contract claims that `"`, `&`, `'`, `<` and `>` are each replaced by the
/// entity that `escaped_char` gives, and that every other character is kept.
#[verifier::external_body]
fn render_text(text: &str) -> (markup: String)
    ensures
        markup@ == escaped_text(text@),
{
    axohtml::dom::TextNode::<String>::new(text).to_string()
}

/// Renders an `h3` element of `axohtml` (`h3::new`, then its `Display`) whose
/// only child is the raw markup `inner`. The contract claims that an element
/// without attributes prints its opening tag, its children as they are, and
/// its closing tag.
#[verifier::external_body]
fn render_heading(inner: &str) -> (markup: String)
    ensures
        markup@ == heading_element(inner@),
{
    let mut element = axohtml::elements::h3::<String>::new();
    element.children.push(Box::new(axohtml::dom::UnsafeTextNode::<String>::new(inner)));
    element.to_string()
}

/// Renders a `div` element of `axohtml` (`div::new`, then its `Display`) with
/// the class list parsed from `class` and the raw markup `inner` as its only
/// child. The contract claims that an empty class list prints no attribute,
/// that a single class name prints as it was given, and that the child is
/// printed as it is between the tags. Parsing panics on a list that holds an
/// ill-formed name, so the contract asks for no name or one well-formed name.
#[verifier::external_body]
fn render_div(class: &str, inner: &str) -> (markup: String)
    requires
        class@.len() == 0 || is_class_name(class@),
    ensures
        markup@ == div_element(class@, inner@),
{
    let mut element = axohtml::elements::div::<String>::new();
    element.attrs.class = Some(class.parse().unwrap());
    element.children.push(Box::new(axohtml::dom::UnsafeTextNode::<String>::new(inner)));
    element.to_string()
}

proof fn lemma_scripts_class()
    ensures
        is_class_name(SCRIPTS_CLASS@),
{
    reveal_strlit("package-managers-downloads");
}

/// Builds the empty container.
pub fn empty_container() -> (fragment: Fragment)
    ensures
        fragment@ == empty_container_markup(),
{
    proof {
        reveal_strlit("");
    }
    Fragment { markup: render_div("", "") }
}

/// Wraps a rendered script with its label as a heading.
pub fn script_widget(label: &String, script: &Fragment) -> (widget: ScriptWidget)
    ensures
        widget.label@ == label@,
        widget.fragment@ == widget_markup(label@, script@),
{
    proof {
        reveal_strlit("");
    }
    let title = render_text(label.as_str());
    let mut inner = render_heading(title.as_str());
    inner.append(script.markup.as_str());
    let markup = render_div("", inner.as_str());
    ScriptWidget { label: label.clone(), fragment: Fragment { markup } }
}

/// Composes the section from the script widgets and the artifact table.
pub fn assemble_page(widgets: &Vec<ScriptWidget>, table: &Fragment) -> (page: String)
    ensures
        page@ == page_markup(widget_markups(widgets@), table@),
{
    let mut joined = String::new();
    let mut i: usize = 0;
    while i < widgets.len()
        invariant
            i <= widgets.len(),
            joined@ == widget_markups(widgets@.take(i as int)).flatten(),
        decreases widgets.len() - i,
    {
        proof {
            let done = widget_markups(widgets@.take(i as int));
            done.lemma_flatten_push(widgets[i as int].fragment@);
            assert(widget_markups(widgets@.take(i + 1)) =~= done.push(
                widgets[i as int].fragment@,
            ));
        }
        joined.append(widgets[i].fragment.markup.as_str());
        i += 1;
    }
    proof {
        assert(widgets@.take(i as int) =~= widgets@);
        reveal_strlit("");
        lemma_scripts_class();
    }
    let mut regions = render_div(SCRIPTS_CLASS, joined.as_str());
    let table_region = render_div("", table.markup.as_str());
    regions.append(table_region.as_str());
    render_div("", regions.as_str())
}

} // verus!
