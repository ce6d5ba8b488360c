//! The HTML template and the stylesheet for the PDF renderer.
use vstd::prelude::*;
use crate::text::{chars_of, ends_with, push_str, string_of};

verus! {

/// The HTML template for the document converter.
pub const TEMPLATE: &'static str = "<!DOCTYPE html>\n<html lang=\"$lang$\">\n<head>\n<meta charset=\"utf-8\">\n</head>\n<body>\n$if(cover-image)$\n<div class=\"cover-page\"><img src=\"$cover-image$\"></div>\n<div class=\"blank-page\"></div>\n$endif$\n<div class=\"title-page\">\n<h1>$title$</h1>\n<p class=\"author-first\">Ludwig</p>\n<p class=\"author-last\">Wittgenstein</p>\n</div>\n<div class=\"content\">\n$body$\n</div>\n</body>\n</html>\n";

/// Build the HTML template for the document converter.
pub fn build_template() -> (r: String)
    ensures
        r@ == TEMPLATE@,
{
    string_of(&chars_of(TEMPLATE))
}

/// Stylesheet text, part 0.
pub const CSS_0: &'static str = "\n@font-face {\n  font-family: \"TeX Gyre Pagella\";\n  src: url(\"";

/// Stylesheet text, part 1.
pub const CSS_1: &'static str = "\") format(\"opentype\");\n  font-weight: 400;\n  font-style: normal;\n}\n@font-face {\n  font-family: \"TeX Gyre Pagella\";\n  src: url(\"";

/// Stylesheet text, part 2.
pub const CSS_2: &'static str = "\") format(\"opentype\");\n  font-weight: 400;\n  font-style: italic;\n}\n@font-face {\n  font-family: \"TeX Gyre Pagella\";\n  src: url(\"";

/// Stylesheet text, part 3.
pub const CSS_3: &'static str = "\") format(\"opentype\");\n  font-weight: 700;\n  font-style: normal;\n}\n@font-face {\n  font-family: \"TeX Gyre Pagella\";\n  src: url(\"";

/// Stylesheet text, part 4.
pub const CSS_4: &'static str = "\") format(\"opentype\");\n  font-weight: 700;\n  font-style: italic;\n}\n@font-face {\n  font-family: \"TeX Gyre Pagella Math\";\n  src: url(\"";

/// Stylesheet text, part 5.
pub const CSS_5: &'static str = "\") format(\"opentype\");\n  font-weight: 400;\n  font-style: normal;\n}\n@font-face {\n  font-family: \"SangBleu Empire\";\n  src: url(\"";

/// Stylesheet text, part 6.
pub const CSS_6: &'static str = "\") format(\"woff2\");\n  font-weight: 400;\n  font-style: normal;\n}\n@font-face {\n  font-family: \"SangBleu Empire\";\n  src: url(\"";

/// Stylesheet text, part 7.
pub const CSS_7: &'static str = "\") format(\"woff2\");\n  font-weight: 500;\n  font-style: normal;\n}\n@font-face {\n  font-family: \"SangBleu Empire\";\n  src: url(\"";

/// Stylesheet text, part 8.
pub const CSS_8: &'static str = "\") format(\"woff2\");\n  font-weight: 700;\n  font-style: normal;\n}\n@font-face {\n  font-family: \"SangBleu Empire\";\n  src: url(\"";

/// Stylesheet text, part 9.
pub const CSS_9: &'static str = "\") format(\"woff2\");\n  font-weight: 900;\n  font-style: normal;\n}\n\n@page {\n  size: 160mm 240mm;\n  margin: 25mm 20mm 30mm 31mm;\n\n  @bottom-center {\n    content: counter(page);\n    font-family: \"TeX Gyre Pagella\", serif;\n    font-size: 10pt;\n    color: #666;\n  }\n}\n\n@page cover {\n  margin: 1.5mm;\n  @bottom-center { content: none; }\n}\n\n@page blank {\n  @bottom-center { content: none; }\n}\n\n@page title {\n  @bottom-center { content: none; }\n}\n\n.cover-page {\n  page: cover;\n  page-break-after: always;\n  margin: 0;\n  padding: 0;\n  width: 100%;\n  height: 100%;\n  display: flex;\n  align-items: center;\n  justify-content: center;\n}\n\n.cover-page img {\n  max-width: 100%;\n  max-height: 100%;\n  object-fit: contain;\n  display: block;\n  margin: auto;\n}\n\n.blank-page {\n  page: blank;\n  page-break-after: always;\n  height: 240mm;\n}\n\n.title-page {\n  page: title;\n  page-break-after: always;\n  display: flex;\n  flex-direction: column;\n  justify-content: center;\n  height: 180mm;\n}\n\n.title-page h1 {\n  font-family: \"SangBleu Empire\", serif;\n  font-size: 40pt;\n  font-weight: 700;\n  text-align: left;\n  margin: 0 0 0.4em 0;\n  color: #000;\n  line-height: 1.05;\n  hyphens: none;\n}\n\n.title-page .author-first {\n  font-family: \"SangBleu Empire\", serif;\n  font-size: 22pt;\n  font-weight: 400;\n  text-align: left;\n  color: #000;\n  margin: 0;\n  line-height: 1.2;\n}\n\n.title-page .author-last {\n  font-family: \"SangBleu Empire\", serif;\n  font-size: 22pt;\n  font-weight: 400;\n  text-align: left;\n  color: #000;\n  margin: 0;\n  line-height: 1.2;\n}\n\n.content {\n  page-break-before: always;\n}\n\nbody {\n  margin: 0;\n  padding: 0;\n  font-family: \"TeX Gyre Pagella\", serif;\n  font-size: 11pt;\n  line-height: 1.6;\n  text-align: justify;\n  hyphens: auto;\n  -webkit-hyphens: auto;\n  color: #333;\n  orphans: 2;\n  widows: 2;\n  counter-reset: page;\n}\n\nh1 {\n  font-family: \"SangBleu Empire\", serif;\n  font-size: 48pt;\n  font-weight: 700;\n  text-align: center;\n  margin: 2em 0 1em 0;\n  page-break-after: avoid;\n}\n\nh2 {\n  font-family: \"SangBleu Empire\", serif;\n  font-size: 18pt;\n  font-weight: 400;\n  text-align: center;\n  margin: 2em 0 1em 0;\n  page-break-before: always;\n  page-break-after: avoid;\n}\n\nh3 {\n  float: left;\n  clear: left;\n  width: 21mm;\n  margin-left: -27mm;\n  margin-top: 0;\n  margin-bottom: 0;\n  padding-right: 0;\n  font-family: \"TeX Gyre Pagella\", serif;\n  font-size: 11pt;\n  font-weight: 400;\n  color: #bbb;\n  text-align: right;\n  line-height: 1.6;\n}\n\nh3 a {\n  color: #bbb;\n  text-decoration: none;\n}\n\n.remark {\n  break-inside: avoid;\n}\n\np {\n  margin: 0 0 1em 0;\n  text-indent: 0;\n}\n\nhr {\n  border: none;\n  border-top: 0.5pt solid #000;\n  margin: 1.5em 0;\n}\n\nblockquote {\n  margin: 0 0 1em 2em;\n  font-style: italic;\n}\n\nem, i {\n  font-style: italic;\n}\n\nstrong, b {\n  font-weight: 700;\n}\n\n.series-number {\n  background-color: #444;\n  color: #fff;\n  padding: 0.15em 0.2em 0 0.3em;\n  border-radius: 3px;\n  margin-right: 0.15em;\n  font-size: 0.9em;\n}\n\nmath {\n  font-family: \"TeX Gyre Pagella Math\", math;\n}\n\nsub, sup {\n  line-height: 0;\n}\n\nmath[display=\"block\"] {\n  display: block;\n  margin: 0.5em 0 1em 0;\n}\n\ns {\n  text-decoration: line-through;\n}\n\nimg {\n  max-width: 100%;\n  height: auto;\n}\n";

/// A `file://` URL for the file `name` in the directory `dir` (as `Path::join` forms it).
pub open spec fn font_url(dir: Seq<char>, name: Seq<char>) -> Seq<char> {
    "file://"@ + dir + (if ends_with(dir, "/"@) {
        Seq::empty()
    } else {
        "/"@
    }) + name
}

/// The stylesheet: its fixed parts with the font URLs between them.
pub open spec fn css_text(font_dir: Seq<char>, heading_dir: Seq<char>) -> Seq<char> {
    CSS_0@
        + font_url(font_dir, "texgyrepagella-regular.otf"@) + CSS_1@
        + font_url(font_dir, "texgyrepagella-italic.otf"@) + CSS_2@
        + font_url(font_dir, "texgyrepagella-bold.otf"@) + CSS_3@
        + font_url(font_dir, "texgyrepagella-bolditalic.otf"@) + CSS_4@
        + font_url(font_dir, "texgyrepagella-math.otf"@) + CSS_5@
        + font_url(heading_dir, "SangBleuEmpire-Regular-WebS.woff2"@) + CSS_6@
        + font_url(heading_dir, "SangBleuEmpire-Medium-WebS.woff2"@) + CSS_7@
        + font_url(heading_dir, "SangBleuEmpire-Bold-WebS.woff2"@) + CSS_8@
        + font_url(heading_dir, "SangBleuEmpire-Black-WebS.woff2"@) + CSS_9@
}

fn push_font_url(out: &mut Vec<char>, dir: &str, name: &str)
    ensures
        final(out)@ == old(out)@ + font_url(dir@, name@),
{
    let ghost o = old(out)@;
    push_str(out, "file://");
    push_str(out, dir);
    let d = chars_of(dir);
    proof {
        reveal_strlit("/");
    }
    if !crate::text::ends_with_exec(&d, &chars_of("/")) {
        push_str(out, "/");
    }
    push_str(out, name);
    proof {
        if ends_with(dir@, "/"@) {
            assert(out@ =~= o + font_url(dir@, name@));
        } else {
            assert(out@ =~= o + font_url(dir@, name@));
        }
    }
}

/// Build the stylesheet with `file://` font references into the (already resolved)
/// font directory and heading-font directory.
pub fn build_css(font_dir: &str, heading_font_dir: &str) -> (r: String)
    ensures
        r@ == css_text(font_dir@, heading_font_dir@),
{
    let mut out = chars_of(CSS_0);
    push_font_url(&mut out, font_dir, "texgyrepagella-regular.otf");
    push_str(&mut out, CSS_1);
    push_font_url(&mut out, font_dir, "texgyrepagella-italic.otf");
    push_str(&mut out, CSS_2);
    push_font_url(&mut out, font_dir, "texgyrepagella-bold.otf");
    push_str(&mut out, CSS_3);
    push_font_url(&mut out, font_dir, "texgyrepagella-bolditalic.otf");
    push_str(&mut out, CSS_4);
    push_font_url(&mut out, font_dir, "texgyrepagella-math.otf");
    push_str(&mut out, CSS_5);
    push_font_url(&mut out, heading_font_dir, "SangBleuEmpire-Regular-WebS.woff2");
    push_str(&mut out, CSS_6);
    push_font_url(&mut out, heading_font_dir, "SangBleuEmpire-Medium-WebS.woff2");
    push_str(&mut out, CSS_7);
    push_font_url(&mut out, heading_font_dir, "SangBleuEmpire-Bold-WebS.woff2");
    push_str(&mut out, CSS_8);
    push_font_url(&mut out, heading_font_dir, "SangBleuEmpire-Black-WebS.woff2");
    push_str(&mut out, CSS_9);
    assert(out@ =~= css_text(font_dir@, heading_font_dir@));
    string_of(&out)
}

} // verus!
