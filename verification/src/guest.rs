//! The example module, which fetches the URL that it is given as input.
use vstd::prelude::*;
use vstd::slice::slice_subrange;
use vstd::string::*;

use crate::text;

verus! {

/// The scheme of a URL.
#[derive(Debug, Clone, Copy, PartialEq, Eq, Structural)]
pub enum UrlScheme {
    Https,
    Http,
}

impl UrlScheme {
    /// What a URL of the scheme begins with.
    pub open spec fn prefix(self) -> Seq<char> {
        match self {
            UrlScheme::Https => "https://"@,
            UrlScheme::Http => "http://"@,
        }
    }
}

/// What is to be fetched.
#[derive(Debug)]
pub struct Target {
    pub scheme: UrlScheme,
    pub authority: String,
    pub path: String,
}

/// The contents of a `Target`.
#[verifier::ext_equal]
pub ghost struct TargetView {
    pub scheme: UrlScheme,
    pub authority: Seq<char>,
    pub path: Seq<char>,
}

impl View for Target {
    type V = TargetView;

    open spec fn view(&self) -> TargetView {
        TargetView { scheme: self.scheme, authority: self.authority@, path: self.path@ }
    }
}

/// A URL without its scheme as a target: the authority goes up to the first
/// slash, where the path begins. Without a slash the path is the root.
pub open spec fn split_url(scheme: UrlScheme, rest: Seq<char>) -> TargetView {
    match text::position(rest, '/') {
        Some(i) => TargetView { scheme, authority: rest.take(i), path: rest.skip(i) },
        None => TargetView { scheme, authority: rest, path: "/"@ },
    }
}

/// What an input, in which white space at both ends does not count, asks to be
/// fetched; nothing where it is not an HTTP URL.
pub open spec fn target_of(input: Seq<char>) -> Option<TargetView> {
    let url = text::trimmed(input);
    if "https://"@.is_prefix_of(url) {
        Some(split_url(UrlScheme::Https, url.skip(8)))
    } else if "http://"@.is_prefix_of(url) {
        Some(split_url(UrlScheme::Http, url.skip(7)))
    } else {
        None
    }
}

fn starts_with(s: &[char], prefix: &str) -> (r: bool)
    ensures
        r == prefix@.is_prefix_of(s@),
{
    let wanted = text::chars(prefix);
    let mut i: usize = 0;
    while i < wanted.len()
        invariant
            wanted@ == prefix@,
            i <= wanted@.len(),
            i <= s@.len(),
            forall|k: int| 0 <= k < i ==> s@[k] == wanted@[k],
        decreases wanted@.len() - i,
    {
        if i >= s.len() || s[i] != wanted[i] {
            assert(prefix@.is_prefix_of(s@) ==> s@.take(prefix@.len() as int)[i as int]
                == wanted@[i as int]);
            return false;
        }
        i = i + 1;
    }
    assert(s@.take(prefix@.len() as int) =~= prefix@);
    true
}

fn split(scheme: UrlScheme, rest: &[char]) -> (target: Target)
    ensures
        target@ == split_url(scheme, rest@),
{
    match text::find_among(rest, '/') {
        Some(i) => {
            let authority = text::string_of(slice_subrange(rest, 0, i));
            let path = text::string_of(slice_subrange(rest, i, rest.len()));
            assert(rest@.subrange(0, i as int) =~= rest@.take(i as int));
            assert(rest@.subrange(i as int, rest@.len() as int) =~= rest@.skip(i as int));
            Target { scheme, authority, path }
        },
        None => Target { scheme, authority: text::string_of(rest), path: "/".to_owned() },
    }
}

/// Parses the input into a scheme, an authority and a path.
pub fn parse_url(input: &str) -> (r: Option<Target>)
    ensures
        match r {
            Some(target) => target_of(input@) == Some(target@),
            None => target_of(input@) is None,
        },
{
    proof {
        reveal_strlit("https://");
        reveal_strlit("http://");
    }
    let chars = text::chars(input);
    let url = text::trim(chars.as_slice());
    let len = url.len();
    if starts_with(url, "https://") {
        let rest = slice_subrange(url, 8, len);
        assert(rest@ =~= url@.skip(8));
        Some(split(UrlScheme::Https, rest))
    } else if starts_with(url, "http://") {
        let rest = slice_subrange(url, 7, len);
        assert(rest@ =~= url@.skip(7));
        Some(split(UrlScheme::Http, rest))
    } else {
        None
    }
}

/// What the module reports of a response, given the body as text.
pub open spec fn report_of(status: u16, len: nat, body: Seq<char>) -> Seq<char> {
    "status: "@ + text::decimal(status as nat) + "\nbody_length: "@ + text::decimal(len)
        + "\nbody: "@ + body + "\n"@
}

/// Makes the report of a response whose body is at hand as text.
pub fn make_report(status: u16, len: usize, body: &str) -> (report: String)
    ensures
        report@ == report_of(status, len as nat, body@),
{
    let mut report = "status: ".to_owned();
    text::push_decimal(&mut report, status as usize);
    report.append("\nbody_length: ");
    text::push_decimal(&mut report, len);
    report.append("\nbody: ");
    report.append(body);
    report.append("\n");
    report
}

/// Makes the report of a response.
pub fn report(status: u16, body: &[u8]) -> (report: String)
    ensures
        report@ == report_of(status, body@.len(), text::lossy(body@)),
{
    make_report(status, body.len(), text::text_lossy(body).as_str())
}

/// A URL is made up of the parts that it is parsed into, save that the path of
/// one without a path is the root; the authority holds no slash and the path
/// begins with one.
pub proof fn law_url_is_made_up_of_its_parts(input: Seq<char>)
    requires
        target_of(input) is Some,
    ensures
        ({
            let target = target_of(input)->0;
            let url = text::trimmed(input);
            let front = target.scheme.prefix() + target.authority;
            &&& url == front + target.path || (url == front && target.path == "/"@)
            &&& !target.authority.contains('/')
            &&& target.path[0] == '/'
        }),
{
    reveal_strlit("https://");
    reveal_strlit("http://");
    reveal_strlit("/");
    let url = text::trimmed(input);
    let target = target_of(input)->0;
    let prefix = target.scheme.prefix();
    let rest = url.skip(prefix.len() as int);
    assert(url =~= prefix + rest);
    text::lemma_position(rest, '/');
    match text::position(rest, '/') {
        Some(i) => {
            assert(url =~= prefix + rest.take(i) + rest.skip(i));
        },
        None => {},
    }
}

/// A URL in the input, with white space about it, is taken apart at the end of its
/// scheme and at the first slash behind that; without such a slash the path is the
/// root.
pub proof fn law_url_taken_apart(
    front: Seq<char>,
    authority: Seq<char>,
    path: Seq<char>,
    back: Seq<char>,
)
    requires
        forall|i: int| 0 <= i < front.len() ==> text::is_white(#[trigger] front[i]),
        forall|i: int| 0 <= i < back.len() ==> text::is_white(#[trigger] back[i]),
        !authority.contains('/'),
        authority.len() > 0,
        !text::is_white(authority.last()),
        path.len() > 0 ==> path[0] == '/' && !text::is_white(path.last()),
    ensures
        ({
            let named = if path.len() > 0 {
                path
            } else {
                seq!['/']
            };
            &&& target_of(front + ("https://"@ + authority + path) + back) == Some(
                TargetView { scheme: UrlScheme::Https, authority, path: named },
            )
            &&& target_of(front + ("http://"@ + authority + path) + back) == Some(
                TargetView { scheme: UrlScheme::Http, authority, path: named },
            )
        }),
{
    reveal_strlit("https://");
    reveal_strlit("http://");
    reveal_strlit("/");
    assert("/"@ =~= seq!['/']);
    let secure = "https://"@ + authority + path;
    let open = "http://"@ + authority + path;
    text::law_trimmed(front, secure, back);
    text::law_trimmed(front, open, back);
    let rest = authority + path;
    assert(secure.take(8) =~= "https://"@);
    assert(secure.skip(8) =~= rest);
    assert(open.take(7) =~= "http://"@);
    assert(open.skip(7) =~= rest);
    assert(!"https://"@.is_prefix_of(open)) by {
        assert(open[4] == ':');
        if "https://"@.is_prefix_of(open) {
            assert(open.take(8)[4] == open[4]);
        }
    }
    assert forall|k: int| 0 <= k < authority.len() implies rest[k] != '/' by {
        assert(rest[k] == authority[k]);
        assert(authority.contains(authority[k]));
    }
    if path.len() > 0 {
        text::lemma_position_is(rest, '/', authority.len() as int);
        assert(rest.take(authority.len() as int) =~= authority);
        assert(rest.skip(authority.len() as int) =~= path);
    } else {
        assert(rest =~= authority);
        text::lemma_position(rest, '/');
    }
}

/// An input that, without the white space about it, begins with neither scheme asks
/// for nothing.
pub proof fn law_other_input_asks_for_nothing(input: Seq<char>)
    ensures
        target_of(input) is None <==> !"https://"@.is_prefix_of(text::trimmed(input))
            && !"http://"@.is_prefix_of(text::trimmed(input)),
{
}

/// A report holds the status, the number of bytes and the body whole, each behind
/// its name.
pub proof fn law_report_holds_body(status: u16, len: nat, body: Seq<char>)
    ensures
        ({
            let report = report_of(status, len, body);
            let front = "status: "@ + text::decimal(status as nat) + "\nbody_length: "@
                + text::decimal(len) + "\nbody: "@;
            &&& front.is_prefix_of(report)
            &&& body.push('\n').is_suffix_of(report)
            &&& report.len() == front.len() + body.len() + 1
        }),
{
    reveal_strlit("\n");
    let report = report_of(status, len, body);
    let front = "status: "@ + text::decimal(status as nat) + "\nbody_length: "@ + text::decimal(len)
        + "\nbody: "@;
    assert(report.take(front.len() as int) =~= front);
    assert(report.skip(front.len() as int) =~= body.push('\n'));
    assert(body.push('\n').is_suffix_of(report));
}

} // verus!
