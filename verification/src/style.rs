use vstd::prelude::*;
use crate::words::Role;

verus! {

/// A terminal display attribute: an optional 256-color foreground and the
/// bold, italic and dim flags.
#[derive(Clone, Copy)]
pub struct Attr {
    pub color: Option<u8>,
    pub bold: bool,
    pub italic: bool,
    pub dim: bool,
}

/// No color and no flags: text is emitted without any escape sequence.
pub open spec fn default_attr() -> Attr {
    Attr { color: None, bold: false, italic: false, dim: false }
}

pub open spec fn is_default_attr(a: Attr) -> bool {
    a.color is None && !a.bold && !a.italic && !a.dim
}

/// The mapping from semantic roles to display attributes. Three canned
/// profiles exist: full color, no color (emphasis flags only) and minimal
/// (no escapes at all; structure shows through markers and indentation).
pub struct StyleProfile {
    pub header: Attr,
    pub bold: Attr,
    pub italic: Attr,
    pub bold_italic: Attr,
    pub code: Attr,
    pub code_block: Attr,
    pub quote: Attr,
    pub bullet: Attr,
    pub plain: Attr,
}

/// The attribute a role resolves to under a profile; separator spaces and
/// padding are always plain.
pub open spec fn attr_of(p: StyleProfile, r: Role) -> Attr {
    match r {
        Role::Plain => p.plain,
        Role::Bold => p.bold,
        Role::Italic => p.italic,
        Role::BoldItalic => p.bold_italic,
        Role::Code => p.code,
        Role::CodeBlock => p.code_block,
        Role::Header => p.header,
        Role::Quote => p.quote,
        Role::Bullet => p.bullet,
        Role::Space => default_attr(),
        Role::Pad => default_attr(),
    }
}

pub fn attr_for(p: &StyleProfile, r: Role) -> (a: Attr)
    ensures
        a == attr_of(*p, r),
{
    match r {
        Role::Plain => p.plain,
        Role::Bold => p.bold,
        Role::Italic => p.italic,
        Role::BoldItalic => p.bold_italic,
        Role::Code => p.code,
        Role::CodeBlock => p.code_block,
        Role::Header => p.header,
        Role::Quote => p.quote,
        Role::Bullet => p.bullet,
        Role::Space => Attr { color: None, bold: false, italic: false, dim: false },
        Role::Pad => Attr { color: None, bold: false, italic: false, dim: false },
    }
}

/// The full-color profile: orange headers, yellow bold, cyan italic, green
/// inline code, white code blocks, dimmed quote markers.
pub open spec fn full_color_spec() -> StyleProfile {
    StyleProfile {
        header: Attr { color: Some(214u8), bold: true, italic: false, dim: false },
        bold: Attr { color: Some(226u8), bold: true, italic: false, dim: false },
        italic: Attr { color: Some(51u8), bold: false, italic: true, dim: false },
        bold_italic: Attr { color: Some(226u8), bold: true, italic: true, dim: false },
        code: Attr { color: Some(46u8), bold: false, italic: false, dim: false },
        code_block: Attr { color: Some(15u8), bold: false, italic: false, dim: false },
        quote: Attr { color: None, bold: false, italic: false, dim: true },
        bullet: Attr { color: None, bold: false, italic: false, dim: false },
        plain: Attr { color: None, bold: false, italic: false, dim: false },
    }
}

pub fn full_color() -> (p: StyleProfile)
    ensures
        p == full_color_spec(),
{
    StyleProfile {
        header: Attr { color: Some(214), bold: true, italic: false, dim: false },
        bold: Attr { color: Some(226), bold: true, italic: false, dim: false },
        italic: Attr { color: Some(51), bold: false, italic: true, dim: false },
        bold_italic: Attr { color: Some(226), bold: true, italic: true, dim: false },
        code: Attr { color: Some(46), bold: false, italic: false, dim: false },
        code_block: Attr { color: Some(15), bold: false, italic: false, dim: false },
        quote: Attr { color: None, bold: false, italic: false, dim: true },
        bullet: Attr { color: None, bold: false, italic: false, dim: false },
        plain: Attr { color: None, bold: false, italic: false, dim: false },
    }
}

/// The no-color profile: the structural bold, italic and dim flags stay, but
/// no color codes are emitted.
pub open spec fn no_color_spec() -> StyleProfile {
    StyleProfile {
        header: Attr { color: None, bold: true, italic: false, dim: false },
        bold: Attr { color: None, bold: true, italic: false, dim: false },
        italic: Attr { color: None, bold: false, italic: true, dim: false },
        bold_italic: Attr { color: None, bold: true, italic: true, dim: false },
        code: Attr { color: None, bold: false, italic: false, dim: false },
        code_block: Attr { color: None, bold: false, italic: false, dim: false },
        quote: Attr { color: None, bold: false, italic: false, dim: true },
        bullet: Attr { color: None, bold: false, italic: false, dim: false },
        plain: Attr { color: None, bold: false, italic: false, dim: false },
    }
}

pub fn no_color() -> (p: StyleProfile)
    ensures
        p == no_color_spec(),
{
    StyleProfile {
        header: Attr { color: None, bold: true, italic: false, dim: false },
        bold: Attr { color: None, bold: true, italic: false, dim: false },
        italic: Attr { color: None, bold: false, italic: true, dim: false },
        bold_italic: Attr { color: None, bold: true, italic: true, dim: false },
        code: Attr { color: None, bold: false, italic: false, dim: false },
        code_block: Attr { color: None, bold: false, italic: false, dim: false },
        quote: Attr { color: None, bold: false, italic: false, dim: true },
        bullet: Attr { color: None, bold: false, italic: false, dim: false },
        plain: Attr { color: None, bold: false, italic: false, dim: false },
    }
}

/// The minimal profile: every role maps to the default attribute, so the
/// output carries no escape sequence at all.
pub open spec fn minimal_spec() -> StyleProfile {
    StyleProfile {
        header: default_attr(),
        bold: default_attr(),
        italic: default_attr(),
        bold_italic: default_attr(),
        code: default_attr(),
        code_block: default_attr(),
        quote: default_attr(),
        bullet: default_attr(),
        plain: default_attr(),
    }
}

pub fn minimal() -> (p: StyleProfile)
    ensures
        p == minimal_spec(),
{
    StyleProfile {
        header: Attr { color: None, bold: false, italic: false, dim: false },
        bold: Attr { color: None, bold: false, italic: false, dim: false },
        italic: Attr { color: None, bold: false, italic: false, dim: false },
        bold_italic: Attr { color: None, bold: false, italic: false, dim: false },
        code: Attr { color: None, bold: false, italic: false, dim: false },
        code_block: Attr { color: None, bold: false, italic: false, dim: false },
        quote: Attr { color: None, bold: false, italic: false, dim: false },
        bullet: Attr { color: None, bold: false, italic: false, dim: false },
        plain: Attr { color: None, bold: false, italic: false, dim: false },
    }
}

/// Under the minimal profile every role resolves to the default attribute.
pub proof fn lemma_minimal_all_default(r: Role)
    ensures
        is_default_attr(attr_of(minimal_spec(), r)),
{
}

} // verus!
