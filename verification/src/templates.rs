//! HTML rendering for the web form: a static index page, a conversion
//! fragment, and an error fragment, each built by plain concatenation with
//! the rendered text pinned down exactly.

use vstd::prelude::*;
use vstd::string::*;
use crate::convert::ConversionResult;

verus! {

/// The static conversion form page.
pub fn render_index() -> (r: String)
    ensures
        r@
            == "<!DOCTYPE html><html><head><title>Currency Converter</title></head><body><h1>Currency Converter</h1><form method=\"post\" action=\"/convert\"><input name=\"amount\" placeholder=\"Amount\"><input name=\"from\" placeholder=\"From\"><input name=\"to\" placeholder=\"To\"><button type=\"submit\">Convert</button></form></body></html>"@,
{
    String::from_str(
        "<!DOCTYPE html><html><head><title>Currency Converter</title></head><body><h1>Currency Converter</h1><form method=\"post\" action=\"/convert\"><input name=\"amount\" placeholder=\"Amount\"><input name=\"from\" placeholder=\"From\"><input name=\"to\" placeholder=\"To\"><button type=\"submit\">Convert</button></form></body></html>",
    )
}

/// The fragment shown for a successful conversion.
pub fn render_conversion_result(result: ConversionResult) -> (r: String)
    ensures
        r@ == "<div class=\"result\"><p>"@ + result.amount@ + " "@ + result.from@ + " = "@
            + result.result@ + " "@ + result.to@ + "</p><p>Rate: "@ + result.rate@
            + "</p><p>As of "@ + result.timestamp@ + "</p></div>"@,
{
    let mut r = String::from_str("<div class=\"result\"><p>");
    r.append(result.amount.as_str());
    r.append(" ");
    r.append(result.from.as_str());
    r.append(" = ");
    r.append(result.result.as_str());
    r.append(" ");
    r.append(result.to.as_str());
    r.append("</p><p>Rate: ");
    r.append(result.rate.as_str());
    r.append("</p><p>As of ");
    r.append(result.timestamp.as_str());
    r.append("</p></div>");
    r
}

/// The fragment shown for a failed conversion.
pub fn render_error(message: String) -> (r: String)
    ensures
        r@ == "<div class=\"error\"><p>"@ + message@ + "</p></div>"@,
{
    let mut r = String::from_str("<div class=\"error\"><p>");
    r.append(message.as_str());
    r.append("</p></div>");
    r
}

} // verus!
