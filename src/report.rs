//! Deciding which responses are shown, and composing the line shown for each.
use vstd::prelude::*;
use crate::text::{decimal, decimal_string};

verus! {

/// The display switches of a run.
#[derive(Clone, Copy, Debug)]
pub struct DisplayOptions {
    /// Show every response, labelled `Keep` or `Drop`.
    pub verbose: bool,
    /// Show the full URL instead of the candidate path.
    pub expand: bool,
    /// Candidates were requested with a trailing `/`.
    pub add_slash: bool,
    /// Leave out the status code.
    pub hide_status: bool,
    /// Show the body length.
    pub show_len: bool,
    /// Show the target of a 301 redirect.
    pub show_redirect: bool,
}

/// Whether a response with `status` is shown.
pub open spec fn is_shown(discard: Seq<u16>, status: u16, verbose: bool) -> bool {
    verbose || !discard.contains(status)
}

/// The label of a line: none unless verbose, else `Drop: ` or `Keep: `.
pub open spec fn label_of(o: DisplayOptions, discard: Seq<u16>, status: u16) -> Seq<char> {
    if !o.verbose {
        Seq::<char>::empty()
    } else if discard.contains(status) {
        "Drop: "@
    } else {
        "Keep: "@
    }
}

/// The full URL, or `/` and the candidate.
pub open spec fn subject_of(o: DisplayOptions, word: Seq<char>, url: Seq<char>) -> Seq<char> {
    if o.expand {
        url
    } else {
        "/"@ + word
    }
}

/// The echoed trailing slash.
pub open spec fn slash_of(o: DisplayOptions) -> Seq<char> {
    if o.add_slash {
        "/"@
    } else {
        Seq::<char>::empty()
    }
}

/// ` (status)` unless hidden.
pub open spec fn code_of(o: DisplayOptions, status: u16) -> Seq<char> {
    if o.hide_status {
        Seq::<char>::empty()
    } else {
        " ("@ + decimal(status as nat) + ")"@
    }
}

/// ` [length]` when asked for.
pub open spec fn size_of(o: DisplayOptions, len: nat) -> Seq<char> {
    if o.show_len {
        " ["@ + decimal(len) + "]"@
    } else {
        Seq::<char>::empty()
    }
}

/// ` => target` for a 301 when asked for.
pub open spec fn redirect_of(o: DisplayOptions, status: u16, url: Seq<char>) -> Seq<char> {
    if status == 301 && o.show_redirect {
        " => "@ + url
    } else {
        Seq::<char>::empty()
    }
}

/// The line shown for a response: label (verbose only), candidate path or
/// full URL, echoed slash, status, length, and the redirect target.
pub open spec fn display_line(
    o: DisplayOptions,
    discard: Seq<u16>,
    word: Seq<char>,
    status: u16,
    url: Seq<char>,
    len: nat,
) -> Seq<char> {
    label_of(o, discard, status) + subject_of(o, word, url) + slash_of(o) + code_of(o, status)
        + size_of(o, len) + redirect_of(o, status, url)
}

fn wrapped(open: &str, middle: &str, close: &str) -> (r: String)
    ensures
        r@ == open@ + middle@ + close@,
{
    let mut r = String::from_str(open);
    r.append(middle);
    r.append(close);
    r
}

/// Whether `status` is in the discard set.
pub fn is_discarded(discard: &Vec<u16>, status: u16) -> (r: bool)
    ensures
        r == discard@.contains(status),
{
    let mut i: usize = 0;
    while i < discard.len()
        invariant
            i <= discard@.len(),
            forall|k: int| 0 <= k < i ==> discard@[k] != status,
        decreases discard@.len() - i,
    {
        if discard[i] == status {
            assert(discard@[i as int] == status);
            return true;
        }
        i = i + 1;
    }
    false
}

/// The line to show for a response to `word`, or `None` where it is not
/// shown.
pub fn render(
    opts: &DisplayOptions,
    discard: &Vec<u16>,
    word: &str,
    status: u16,
    url: &str,
    len: usize,
) -> (r: Option<String>)
    ensures
        r is Some <==> is_shown(discard@, status, opts.verbose),
        r is Some ==> r->0@ == display_line(*opts, discard@, word@, status, url@, len as nat),
{
    let dropped = is_discarded(discard, status);
    if dropped && !opts.verbose {
        return None;
    }
    let label = if !opts.verbose {
        String::new()
    } else if dropped {
        String::from_str("Drop: ")
    } else {
        String::from_str("Keep: ")
    };
    let subject = if opts.expand {
        String::from_str(url)
    } else {
        wrapped("/", word, "")
    };
    let slash = if opts.add_slash {
        String::from_str("/")
    } else {
        String::new()
    };
    let code = if opts.hide_status {
        String::new()
    } else {
        let digits = decimal_string(status as u64);
        wrapped(" (", digits.as_str(), ")")
    };
    let size = if opts.show_len {
        let digits = decimal_string(len as u64);
        wrapped(" [", digits.as_str(), "]")
    } else {
        String::new()
    };
    let redirect = if status == 301 && opts.show_redirect {
        wrapped(" => ", url, "")
    } else {
        String::new()
    };
    proof {
        reveal_strlit("");
    }
    assert(subject@ =~= subject_of(*opts, word@, url@));
    assert(redirect@ =~= redirect_of(*opts, status, url@));
    let mut line = label;
    line.append(subject.as_str());
    line.append(slash.as_str());
    line.append(code.as_str());
    line.append(size.as_str());
    line.append(redirect.as_str());
    Some(line)
}

} // verus!
