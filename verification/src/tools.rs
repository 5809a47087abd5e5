//! The tool pages' texts: paths, titles, descriptions, steps, questions
//! and the cards that link the tools.

use vstd::prelude::*;

verus! {

/// The tools of the site.
#[derive(Clone, Copy, Debug, PartialEq, Eq, Structural)]
pub enum Tool {
    Compress,
    Convert,
    Resize,
    RemoveBg,
    Colors,
}

/// Pairs of texts (a step and its detail, or a question and its answer).
pub open spec fn pairs_view(v: Seq<(&'static str, &'static str)>) -> Seq<(Seq<char>, Seq<char>)> {
    v.map_values(|p: (&'static str, &'static str)| (p.0@, p.1@))
}

pub open spec fn path_of(t: Tool) -> Seq<char> {
    match t {
        Tool::Compress => "/comprimir-imagen-kb"@,
        Tool::Convert => "/convertir-jpg-a-webp"@,
        Tool::Resize => "/redimensionar-imagen"@,
        Tool::RemoveBg => "/quitar-fondo"@,
        Tool::Colors => "/extraer-colores-imagen"@,
    }
}

pub open spec fn title_of(t: Tool) -> Seq<char> {
    match t {
        Tool::Compress => "Compress image to KB — JPG, PNG and WebP | UnderKb"@,
        Tool::Convert => "Convert JPG to WebP online, free | UnderKb"@,
        Tool::Resize => "Resize an image — width, height, and format | UnderKb"@,
        Tool::RemoveBg => "Remove a flat image background | UnderKb"@,
        Tool::Colors => "Extract colors from an image — HEX palette | UnderKb"@,
    }
}

pub open spec fn description_of(t: Tool) -> Seq<char> {
    match t {
        Tool::Compress => "Compress a photo to 50, 200, or 500 KB. JPG, PNG, or WebP. No account. Uploads up to 20 MB."@,
        Tool::Convert => "Turn JPG or PNG into WebP with adjustable quality. PNG and JPG export too. No account, no watermark."@,
        Tool::Resize => "Change width and height. Fit, crop, or stretch. JPG, WebP, or PNG."@,
        Tool::RemoveBg => "Cut a flat backdrop (white or studio) and download a transparent PNG. Not an AI portrait matte."@,
        Tool::Colors => "Pull a HEX palette from a photo, with approximate share. Copy codes for design or CSS."@,
    }
}

pub open spec fn eyebrow_of(t: Tool) -> Seq<char> {
    match t {
        Tool::Compress => "Compress to a size"@,
        Tool::Convert => "Convert format"@,
        Tool::Resize => "Resize"@,
        Tool::RemoveBg => "Remove background"@,
        Tool::Colors => "Color palette"@,
    }
}

pub open spec fn h1_of(t: Tool) -> Seq<char> {
    match t {
        Tool::Compress => "Compress an image to KB"@,
        Tool::Convert => "Convert JPG to WebP"@,
        Tool::Resize => "Resize an image"@,
        Tool::RemoveBg => "Remove a flat background"@,
        Tool::Colors => "Extract colors from an image"@,
    }
}

pub open spec fn lead_of(t: Tool) -> Seq<char> {
    match t {
        Tool::Compress => "Set a kilobyte budget. We drop quality first, then scale pixels if needed. No account."@,
        Tool::Convert => "WebP is usually smaller than JPG on the web. Tune quality, or export PNG if you need transparency."@,
        Tool::Resize => "Enter width, height, or both. Fit keeps aspect; fill crops; stretch distorts."@,
        Tool::RemoveBg => "Works on product shots and screenshots with a uniform backdrop. If the subject touches the edge, it can nibble the outline."@,
        Tool::Colors => "We sample the photo and merge similar tones. You get HEX codes ready to copy."@,
    }
}

pub open spec fn card_mark_of(t: Tool) -> Seq<char> {
    match t {
        Tool::Compress => "kB"@,
        Tool::Convert => "W"@,
        Tool::Resize => "↔"@,
        Tool::RemoveBg => "✂"@,
        Tool::Colors => "#"@,
    }
}

pub open spec fn card_title_of(t: Tool) -> Seq<char> {
    match t {
        Tool::Compress => "Compress to KB"@,
        Tool::Convert => "JPG to WebP"@,
        Tool::Resize => "Resize"@,
        Tool::RemoveBg => "Remove background"@,
        Tool::Colors => "Extract colors"@,
    }
}

pub open spec fn card_blurb_of(t: Tool) -> Seq<char> {
    match t {
        Tool::Compress => "Hit 50, 200, or 500 KB. Quality first, then scale."@,
        Tool::Convert => "Turn JPG or PNG into WebP (or back). You set the quality."@,
        Tool::Resize => "Change width and height. Fit, crop, or stretch."@,
        Tool::RemoveBg => "White or flat backdrop → transparent PNG. Not a portrait cutout."@,
        Tool::Colors => "HEX palette with an approximate share. Copy the codes."@,
    }
}

pub open spec fn howto_of(t: Tool) -> Seq<(Seq<char>, Seq<char>)> {
    match t {
        Tool::Compress => seq![("Drop the file"@, "JPG, PNG, WebP, or GIF (first frame). Up to 20 MB."@), ("Set the budget"@, "200 KB is solid for web and email. 50 KB for thumbnails."@), ("Download"@, "Quality first; if it still will not fit, we shrink the long edge."@)],
        Tool::Convert => seq![("Drop a JPG or PNG"@, "WebP and GIF work too. HEIC converts in the browser when it can."@), ("Pick WebP and quality"@, "80 is a good photo default. 98+ uses lossless WebP."@), ("Download the .webp"@, "Compare size and dimensions under the preview."@)],
        Tool::Resize => seq![("Drop the image"@, "Same 20 MB limit as the rest of UnderKb."@), ("Width and height"@, "One value keeps aspect. Both together use the mode you pick."@), ("Download"@, "JPG for photos, PNG for transparency, WebP for a smaller file."@)],
        Tool::RemoveBg => seq![("Flat backdrop"@, "Studio white or a solid color. A landscape will not work."@), ("Tune tolerance"@, "Raise it if you still see a halo. Lower it if it eats the subject."@), ("Transparent PNG"@, "Preview uses a checkerboard. Download and drop it into a layout."@)],
        Tool::Colors => seq![("Drop the photo"@, "Logos, UI, or photos. Very transparent pixels are ignored."@), ("How many colors"@, "Between 3 and 12. Near-identical tones are merged."@), ("Copy HEX"@, "Each swatch shows the code and an approximate share."@)],
    }
}

pub open spec fn faq_of(t: Tool) -> Seq<(Seq<char>, Seq<char>)> {
    match t {
        Tool::Compress => seq![("Can I compress to 200 KB?"@, "Yes. 200 KB is the default. You can also pick 50, 100, 500, or 1024."@), ("Do you store my photos?"@, "The result stays in memory about 30 minutes so you can download it, then it expires."@)],
        Tool::Convert => seq![("Is WebP smaller than JPG?"@, "For photos, usually, at quality 70–85. Flat graphics sometimes prefer PNG or lossless WebP."@), ("Is transparency lost?"@, "If you export JPG, yes (white background). WebP and PNG keep it."@)],
        Tool::Resize => seq![("Can I set only the width?"@, "Yes. Height is computed so it is not stretched. Same the other way."@), ("Is there a maximum?"@, "The long edge on the server is 4096 px. Huge camera files are scaled in the browser first."@)],
        Tool::RemoveBg => seq![("Does it cut out a portrait?"@, "No people model. If the backdrop is not flat or hair hits the edge, the cut will be rough."@), ("Why PNG?"@, "You need an alpha channel. JPG has no transparency."@)],
        Tool::Colors => seq![("Are these exact pixel colors?"@, "No. We cluster nearby tones. Fine for palettes, not for press matching."@), ("How many colors come back?"@, "Up to the count you ask for, if the photo has them. A gray screenshot may return fewer."@)],
    }
}

impl Tool {
    /// The page path (Spanish slugs for search).
    pub fn path(self) -> (r: &'static str)
        ensures
            r@ == path_of(self),
    {
        match self {
            Tool::Compress => "/comprimir-imagen-kb",
            Tool::Convert => "/convertir-jpg-a-webp",
            Tool::Resize => "/redimensionar-imagen",
            Tool::RemoveBg => "/quitar-fondo",
            Tool::Colors => "/extraer-colores-imagen",
        }
    }

    /// The page title.
    pub fn title(self) -> (r: &'static str)
        ensures
            r@ == title_of(self),
    {
        match self {
            Tool::Compress => "Compress image to KB — JPG, PNG and WebP | UnderKb",
            Tool::Convert => "Convert JPG to WebP online, free | UnderKb",
            Tool::Resize => "Resize an image — width, height, and format | UnderKb",
            Tool::RemoveBg => "Remove a flat image background | UnderKb",
            Tool::Colors => "Extract colors from an image — HEX palette | UnderKb",
        }
    }

    /// The page description.
    pub fn description(self) -> (r: &'static str)
        ensures
            r@ == description_of(self),
    {
        match self {
            Tool::Compress => "Compress a photo to 50, 200, or 500 KB. JPG, PNG, or WebP. No account. Uploads up to 20 MB.",
            Tool::Convert => "Turn JPG or PNG into WebP with adjustable quality. PNG and JPG export too. No account, no watermark.",
            Tool::Resize => "Change width and height. Fit, crop, or stretch. JPG, WebP, or PNG.",
            Tool::RemoveBg => "Cut a flat backdrop (white or studio) and download a transparent PNG. Not an AI portrait matte.",
            Tool::Colors => "Pull a HEX palette from a photo, with approximate share. Copy codes for design or CSS.",
        }
    }

    /// The line above the heading.
    pub fn eyebrow(self) -> (r: &'static str)
        ensures
            r@ == eyebrow_of(self),
    {
        match self {
            Tool::Compress => "Compress to a size",
            Tool::Convert => "Convert format",
            Tool::Resize => "Resize",
            Tool::RemoveBg => "Remove background",
            Tool::Colors => "Color palette",
        }
    }

    /// The heading.
    pub fn h1(self) -> (r: &'static str)
        ensures
            r@ == h1_of(self),
    {
        match self {
            Tool::Compress => "Compress an image to KB",
            Tool::Convert => "Convert JPG to WebP",
            Tool::Resize => "Resize an image",
            Tool::RemoveBg => "Remove a flat background",
            Tool::Colors => "Extract colors from an image",
        }
    }

    /// The lead paragraph.
    pub fn lead(self) -> (r: &'static str)
        ensures
            r@ == lead_of(self),
    {
        match self {
            Tool::Compress => "Set a kilobyte budget. We drop quality first, then scale pixels if needed. No account.",
            Tool::Convert => "WebP is usually smaller than JPG on the web. Tune quality, or export PNG if you need transparency.",
            Tool::Resize => "Enter width, height, or both. Fit keeps aspect; fill crops; stretch distorts.",
            Tool::RemoveBg => "Works on product shots and screenshots with a uniform backdrop. If the subject touches the edge, it can nibble the outline.",
            Tool::Colors => "We sample the photo and merge similar tones. You get HEX codes ready to copy.",
        }
    }

    /// The mark on the tool card.
    pub fn card_mark(self) -> (r: &'static str)
        ensures
            r@ == card_mark_of(self),
    {
        match self {
            Tool::Compress => "kB",
            Tool::Convert => "W",
            Tool::Resize => "↔",
            Tool::RemoveBg => "✂",
            Tool::Colors => "#",
        }
    }

    /// The title on the tool card.
    pub fn card_title(self) -> (r: &'static str)
        ensures
            r@ == card_title_of(self),
    {
        match self {
            Tool::Compress => "Compress to KB",
            Tool::Convert => "JPG to WebP",
            Tool::Resize => "Resize",
            Tool::RemoveBg => "Remove background",
            Tool::Colors => "Extract colors",
        }
    }

    /// The blurb on the tool card.
    pub fn card_blurb(self) -> (r: &'static str)
        ensures
            r@ == card_blurb_of(self),
    {
        match self {
            Tool::Compress => "Hit 50, 200, or 500 KB. Quality first, then scale.",
            Tool::Convert => "Turn JPG or PNG into WebP (or back). You set the quality.",
            Tool::Resize => "Change width and height. Fit, crop, or stretch.",
            Tool::RemoveBg => "White or flat backdrop → transparent PNG. Not a portrait cutout.",
            Tool::Colors => "HEX palette with an approximate share. Copy the codes.",
        }
    }

    /// The three steps of the page.
    pub fn howto(self) -> (r: Vec<(&'static str, &'static str)>)
        ensures
            pairs_view(r@) == howto_of(self),
    {
        let r = match self {
            Tool::Compress => vec![("Drop the file", "JPG, PNG, WebP, or GIF (first frame). Up to 20 MB."), ("Set the budget", "200 KB is solid for web and email. 50 KB for thumbnails."), ("Download", "Quality first; if it still will not fit, we shrink the long edge.")],
            Tool::Convert => vec![("Drop a JPG or PNG", "WebP and GIF work too. HEIC converts in the browser when it can."), ("Pick WebP and quality", "80 is a good photo default. 98+ uses lossless WebP."), ("Download the .webp", "Compare size and dimensions under the preview.")],
            Tool::Resize => vec![("Drop the image", "Same 20 MB limit as the rest of UnderKb."), ("Width and height", "One value keeps aspect. Both together use the mode you pick."), ("Download", "JPG for photos, PNG for transparency, WebP for a smaller file.")],
            Tool::RemoveBg => vec![("Flat backdrop", "Studio white or a solid color. A landscape will not work."), ("Tune tolerance", "Raise it if you still see a halo. Lower it if it eats the subject."), ("Transparent PNG", "Preview uses a checkerboard. Download and drop it into a layout.")],
            Tool::Colors => vec![("Drop the photo", "Logos, UI, or photos. Very transparent pixels are ignored."), ("How many colors", "Between 3 and 12. Near-identical tones are merged."), ("Copy HEX", "Each swatch shows the code and an approximate share.")],
        };
        assert(pairs_view(r@) =~= howto_of(self));
        r
    }

    /// The questions and answers of the page.
    pub fn faq(self) -> (r: Vec<(&'static str, &'static str)>)
        ensures
            pairs_view(r@) == faq_of(self),
    {
        let r = match self {
            Tool::Compress => vec![("Can I compress to 200 KB?", "Yes. 200 KB is the default. You can also pick 50, 100, 500, or 1024."), ("Do you store my photos?", "The result stays in memory about 30 minutes so you can download it, then it expires.")],
            Tool::Convert => vec![("Is WebP smaller than JPG?", "For photos, usually, at quality 70–85. Flat graphics sometimes prefer PNG or lossless WebP."), ("Is transparency lost?", "If you export JPG, yes (white background). WebP and PNG keep it.")],
            Tool::Resize => vec![("Can I set only the width?", "Yes. Height is computed so it is not stretched. Same the other way."), ("Is there a maximum?", "The long edge on the server is 4096 px. Huge camera files are scaled in the browser first.")],
            Tool::RemoveBg => vec![("Does it cut out a portrait?", "No people model. If the backdrop is not flat or hair hits the edge, the cut will be rough."), ("Why PNG?", "You need an alpha channel. JPG has no transparency.")],
            Tool::Colors => vec![("Are these exact pixel colors?", "No. We cluster nearby tones. Fine for palettes, not for press matching."), ("How many colors come back?", "Up to the count you ask for, if the photo has them. A gray screenshot may return fewer.")],
        };
        assert(pairs_view(r@) =~= faq_of(self));
        r
    }

    /// The call to action on the tool card.
    pub fn card_cta(self) -> (r: &'static str)
        ensures
            r@ == "Open tool"@,
    {
        "Open tool"
    }
}

/// The cards of the other tools, in order: each tool with its short title
/// and blurb.
pub open spec fn all_cards() -> Seq<(Tool, Seq<char>, Seq<char>)> {
    seq![(Tool::Compress, "Compress to KB"@, "A real kilobyte cap."@), (Tool::Convert, "JPG → WebP"@, "Adjustable quality."@), (Tool::Resize, "Resize"@, "Width, height, or crop."@), (Tool::RemoveBg, "Remove background"@, "Flat backdrops to PNG."@), (Tool::Colors, "Extract colors"@, "HEX palette."@)]
}

/// The cards of `s` but the one of `current`.
pub open spec fn others_in(s: Seq<(Tool, Seq<char>, Seq<char>)>, current: Tool) -> Seq<
    (Tool, Seq<char>, Seq<char>),
>
    decreases s.len(),
{
    if s.len() == 0 {
        s
    } else {
        let r = others_in(s.drop_last(), current);
        if s.last().0 != current {
            r.push(s.last())
        } else {
            r
        }
    }
}

pub open spec fn others_of(current: Tool) -> Seq<(Tool, Seq<char>, Seq<char>)> {
    others_in(all_cards(), current)
}

pub open spec fn cards_view(v: Seq<(Tool, &'static str, &'static str)>) -> Seq<(Tool, Seq<char>, Seq<char>)> {
    v.map_values(|c: (Tool, &'static str, &'static str)| (c.0, c.1@, c.2@))
}

fn card(i: usize) -> (r: (Tool, &'static str, &'static str))
    requires
        i < 5,
    ensures
        (r.0, r.1@, r.2@) == all_cards()[i as int],
{
    match i {
        0 => (Tool::Compress, "Compress to KB", "A real kilobyte cap."),
        1 => (Tool::Convert, "JPG → WebP", "Adjustable quality."),
        2 => (Tool::Resize, "Resize", "Width, height, or crop."),
        3 => (Tool::RemoveBg, "Remove background", "Flat backdrops to PNG."),
        _ => (Tool::Colors, "Extract colors", "HEX palette."),
    }
}

/// The other tools a page links to: every tool but `current`, in order.
pub fn more_tools(current: Tool) -> (r: Vec<(Tool, &'static str, &'static str)>)
    ensures
        cards_view(r@) == others_of(current),
{
    let mut r: Vec<(Tool, &'static str, &'static str)> = Vec::new();
    let mut i: usize = 0;
    while i < 5
        invariant
            i <= 5,
            cards_view(r@) == others_in(all_cards().take(i as int), current),
        decreases 5 - i,
    {
        let c = card(i);
        proof {
            let t = all_cards().take(i + 1);
            assert(t.drop_last() =~= all_cards().take(i as int));
        }
        if c.0 != current {
            r.push(c);
        }
        assert(cards_view(r@) =~= others_in(all_cards().take(i + 1), current));
        i = i + 1;
    }
    assert(all_cards().take(5) =~= all_cards());
    r
}

} // verus!
