//! Plain data types shared across the library, and parsers for the
//! line-oriented output of the local mail-store adapter.

use vstd::prelude::*;
use vstd::string::StrSliceExecFns;

verus! {

/// One mail item as reported by the local mail-store adapter.
#[derive(Debug, Clone)]
pub struct Email {
    pub id: String,
    pub message_id: String,
    pub subject: String,
    pub sender: String,
    pub date_received: String,
    pub mailbox: String,
    pub account: String,
}

/// Which header field a filter rule inspects.
#[derive(Debug, Clone, Copy, PartialEq, Eq, Structural)]
pub enum FilterField {
    Subject,
    Sender,
    Any,
}

/// A user-defined match rule.  The numeric identity is assigned by the
/// store on first insertion and never reused.
#[derive(Debug, Clone)]
pub struct FilterPattern {
    pub id: i64,
    pub name: String,
    pub pattern: String,
    pub field: FilterField,
    pub is_regex: bool,
    pub enabled: bool,
}

/// A message body, with the HTML and plain-text parts cached
/// independently.
#[derive(Debug, Clone)]
pub struct EmailBody {
    pub html: Option<String>,
    pub text: Option<String>,
}

/// Ghost record of a filter rule, with string fields abstracted to
/// character sequences.
pub ghost struct FilterPatternV {
    pub id: i64,
    pub name: Seq<char>,
    pub pattern: Seq<char>,
    pub field: FilterField,
    pub is_regex: bool,
    pub enabled: bool,
}

impl View for FilterPattern {
    type V = FilterPatternV;

    open spec fn view(&self) -> FilterPatternV {
        FilterPatternV {
            id: self.id,
            name: self.name@,
            pattern: self.pattern@,
            field: self.field,
            is_regex: self.is_regex,
            enabled: self.enabled,
        }
    }
}

/// The view of a whole rule list.
pub open spec fn filters_view(fs: Seq<FilterPattern>) -> Seq<FilterPatternV> {
    fs.map_values(|f: FilterPattern| f@)
}

/// Relies on `str`'s `PartialEq`: string slices compare equal exactly
/// when their character sequences are equal.
#[verifier::external_body]
pub(crate) fn str_eq(a: &str, b: &str) -> (r: bool)
    ensures
        r == (a@ == b@),
{
    a == b
}

/// Copies a mail item.  (The derived `Clone` carries no specification,
/// so verified code copies items through this function.)
pub fn clone_email(e: &Email) -> (r: Email)
    ensures
        r == *e,
{
    Email {
        id: e.id.clone(),
        message_id: e.message_id.clone(),
        subject: e.subject.clone(),
        sender: e.sender.clone(),
        date_received: e.date_received.clone(),
        mailbox: e.mailbox.clone(),
        account: e.account.clone(),
    }
}

/// Copies a rule.  (The derived `Clone` carries no specification, so the
/// store copies rules through this function.)
pub fn clone_filter(f: &FilterPattern) -> (r: FilterPattern)
    ensures
        r == *f,
{
    FilterPattern {
        id: f.id,
        name: f.name.clone(),
        pattern: f.pattern.clone(),
        field: f.field,
        is_regex: f.is_regex,
        enabled: f.enabled,
    }
}


/// Relies on `String`'s `FromIterator<char>`: collecting characters
/// yields the string of exactly those characters.
#[verifier::external_body]
fn chars_to_string(v: &Vec<char>) -> (r: String)
    ensures
        r@ == v@,
{
    v.iter().collect()
}

fn str_chars_vec(s: &str) -> (v: Vec<char>)
    ensures
        v@ == s@,
{
    let n = s.unicode_len();
    let mut v: Vec<char> = Vec::new();
    let mut i: usize = 0;
    while i < n
        invariant
            i <= n,
            n == s@.len(),
            v@ == s@.take(i as int),
        decreases n - i,
    {
        v.push(s.get_char(i));
        proof {
            assert(v@ =~= s@.take(i + 1));
        }
        i = i + 1;
    }
    proof {
        assert(s@.take(n as int) =~= s@);
    }
    v
}

/// The name after the last slash of a mailbox URL; the whole text
/// when it has no slash, and empty when it ends in one.
pub open spec fn after_last_slash(s: Seq<char>) -> Seq<char>
    decreases s.len(),
{
    if s.len() == 0 {
        s
    } else if s.last() == '/' {
        Seq::empty()
    } else {
        after_last_slash(s.drop_last()).push(s.last())
    }
}

/// Extracts the mailbox name from a mailbox URL.
pub fn extract_mailbox_name(url: &str) -> (r: String)
    ensures
        r@ == after_last_slash(url@),
{
    let chars = str_chars_vec(url);
    let cut = last_slash_cut(&chars);
    proof {
        lemma_after_last_slash_at(url@, cut as int);
    }
    let mut out: Vec<char> = Vec::new();
    let mut i: usize = cut;
    while i < chars.len()
        invariant
            cut <= i <= chars@.len(),
            chars@ == url@,
            out@ == url@.skip(cut as int).take(i - cut),
        decreases chars@.len() - i,
    {
        out.push(chars[i]);
        proof {
            assert(out@ =~= url@.skip(cut as int).take(i + 1 - cut));
        }
        i = i + 1;
    }
    proof {
        assert(url@.skip(cut as int).take(url@.len() - cut) =~= url@.skip(cut as int));
    }
    chars_to_string(&out)
}

fn last_slash_cut(chars: &Vec<char>) -> (cut: usize)
    ensures
        cut <= chars@.len(),
        cut > 0 ==> chars@[cut - 1] == '/',
        forall|j: int| cut <= j < chars@.len() ==> chars@[j] != '/',
{
    let mut c = chars.len();
    while c > 0
        invariant
            c <= chars@.len(),
            forall|j: int| c <= j < chars@.len() ==> chars@[j] != '/',
        decreases c,
    {
        if chars[c - 1] == '/' {
            return c;
        }
        c = c - 1;
    }
    0
}

proof fn lemma_after_last_slash_at(s: Seq<char>, cut: int)
    requires
        0 <= cut <= s.len(),
        cut > 0 ==> s[cut - 1] == '/',
        forall|j: int| cut <= j < s.len() ==> s[j] != '/',
    ensures
        after_last_slash(s) == s.skip(cut),
    decreases s.len(),
{
    if s.len() == 0 {
        assert(after_last_slash(s) =~= s.skip(0));
    } else if s.last() == '/' {
        assert(cut == s.len());
        assert(after_last_slash(s) =~= s.skip(cut));
    } else {
        assert(cut < s.len());
        let t = s.drop_last();
        assert(forall|j: int| cut <= j < t.len() ==> t[j] != '/');
        if cut > 0 {
            assert(t[cut - 1] == s[cut - 1]);
        }
        lemma_after_last_slash_at(t, cut);
        assert(after_last_slash(s) == t.skip(cut).push(s.last()));
        assert(t.skip(cut).push(s.last()) =~= s.skip(cut));
    }
}


/// Ghost record of a local mail item.
pub ghost struct EmailV {
    pub id: Seq<char>,
    pub message_id: Seq<char>,
    pub subject: Seq<char>,
    pub sender: Seq<char>,
    pub date_received: Seq<char>,
    pub mailbox: Seq<char>,
    pub account: Seq<char>,
}

impl View for Email {
    type V = EmailV;

    open spec fn view(&self) -> EmailV {
        EmailV {
            id: self.id@,
            message_id: self.message_id@,
            subject: self.subject@,
            sender: self.sender@,
            date_received: self.date_received@,
            mailbox: self.mailbox@,
            account: self.account@,
        }
    }
}

/// The views of a list of mail items.
pub open spec fn email_views(s: Seq<Email>) -> Seq<EmailV> {
    s.map_values(|e: Email| e@)
}

/// The first position at or after `from` where two pipe characters
/// stand adjacently; the length when there is none.
pub open spec fn find_delim_from(s: Seq<char>, from: int) -> int
    decreases s.len() - from,
{
    if from < 0 || from + 1 >= s.len() {
        s.len() as int
    } else if s[from] == '|' && s[from + 1] == '|' {
        from
    } else {
        find_delim_from(s, from + 1)
    }
}

/// The first position at or after `from` holding a line break; the
/// length when there is none.
pub open spec fn find_nl_from(s: Seq<char>, from: int) -> int
    decreases s.len() - from,
{
    if from < 0 || from >= s.len() {
        s.len() as int
    } else if s[from] == '\n' {
        from
    } else {
        find_nl_from(s, from + 1)
    }
}

proof fn lemma_find_delim_bounds(s: Seq<char>, from: int)
    requires
        0 <= from,
    ensures
        from <= s.len() ==> from <= find_delim_from(s, from),
        find_delim_from(s, from) <= s.len(),
        find_delim_from(s, from) < s.len() ==> (find_delim_from(s, from) + 1 < s.len() && s[
            find_delim_from(s, from)
        ] == '|' && s[find_delim_from(s, from) + 1] == '|'),
    decreases s.len() - from,
{
    if from + 1 >= s.len() {
    } else if s[from] == '|' && s[from + 1] == '|' {
    } else {
        lemma_find_delim_bounds(s, from + 1);
    }
}

proof fn lemma_find_nl_bounds(s: Seq<char>, from: int)
    requires
        0 <= from,
    ensures
        from <= s.len() ==> from <= find_nl_from(s, from),
        find_nl_from(s, from) <= s.len(),
        find_nl_from(s, from) < s.len() ==> s[find_nl_from(s, from)] == '\n',
    decreases s.len() - from,
{
    if from >= s.len() {
    } else if s[from] == '\n' {
    } else {
        lemma_find_nl_bounds(s, from + 1);
    }
}

/// The fields of one line, split on the double-pipe delimiter from
/// position `idx`.
pub open spec fn split_fields_from(s: Seq<char>, idx: int) -> Seq<Seq<char>>
    decreases s.len() - idx, 0int via split_fields_from_decreases
{
    if idx < 0 || idx >= s.len() {
        seq![Seq::<char>::empty()]
    } else {
        let k = find_delim_from(s, idx);
        if k >= s.len() {
            seq![s.skip(idx)]
        } else {
            seq![s.subrange(idx, k)] + split_fields_from(s, k + 2)
        }
    }
}

#[via_fn]
proof fn split_fields_from_decreases(s: Seq<char>, idx: int) {
    if idx < 0 || idx >= s.len() {
    } else {
        lemma_find_delim_bounds(s, idx);
    }
}

/// What one output line yields: a mail item when it carries at least
/// six fields (the identifier doubles as the message id), nothing
/// otherwise, so blank and short lines drop out.
pub open spec fn email_of_line(line: Seq<char>) -> Option<EmailV> {
    let fs = split_fields_from(line, 0);
    if fs.len() >= 6 {
        Some(
            EmailV {
                id: fs[0],
                message_id: fs[0],
                subject: fs[1],
                sender: fs[2],
                date_received: fs[3],
                mailbox: fs[4],
                account: fs[5],
            },
        )
    } else {
        None
    }
}

/// The mail items parsed from the adapter's output, scanning lines
/// from position `idx`.
pub open spec fn parse_output_from(s: Seq<char>, idx: int) -> Seq<EmailV>
    decreases s.len() - idx, 0int via parse_output_from_decreases
{
    if idx < 0 || idx >= s.len() {
        Seq::empty()
    } else {
        let k = find_nl_from(s, idx);
        let nxt = if k >= s.len() {
            s.len() as int
        } else {
            k + 1
        };
        let rest = parse_output_from(s, nxt);
        match email_of_line(s.subrange(idx, k)) {
            Some(e) => seq![e] + rest,
            None => rest,
        }
    }
}

#[via_fn]
proof fn parse_output_from_decreases(s: Seq<char>, idx: int) {
    if idx < 0 || idx >= s.len() {
    } else {
        lemma_find_nl_bounds(s, idx);
    }
}

fn copy_char_range(v: &Vec<char>, lo: usize, hi: usize) -> (out: Vec<char>)
    requires
        lo <= hi <= v@.len(),
    ensures
        out@ == v@.subrange(lo as int, hi as int),
{
    let mut out: Vec<char> = Vec::new();
    let mut i: usize = lo;
    proof {
        assert(out@ =~= v@.subrange(lo as int, lo as int));
    }
    while i < hi
        invariant
            lo <= i <= hi,
            hi <= v@.len(),
            out@ == v@.subrange(lo as int, i as int),
        decreases hi - i,
    {
        out.push(v[i]);
        proof {
            assert(out@ =~= v@.subrange(lo as int, i + 1));
        }
        i = i + 1;
    }
    out
}

fn find_delim_exec(v: &Vec<char>, from: usize) -> (r: usize)
    requires
        from <= v@.len(),
    ensures
        r == find_delim_from(v@, from as int),
        from <= r <= v@.len(),
        r < v@.len() ==> r + 1 < v@.len(),
{
    proof {
        lemma_find_delim_bounds(v@, from as int);
    }
    let mut i: usize = from;
    while v.len() - i > 1
        invariant
            from <= i,
            i <= v@.len(),
            find_delim_from(v@, from as int) == find_delim_from(v@, i as int),
        decreases v@.len() - i,
    {
        if v[i] == '|' && v[i + 1] == '|' {
            return i;
        }
        i = i + 1;
    }
    v.len()
}

fn find_nl_exec(v: &Vec<char>, from: usize) -> (r: usize)
    requires
        from <= v@.len(),
    ensures
        r == find_nl_from(v@, from as int),
        from <= r <= v@.len(),
{
    proof {
        lemma_find_nl_bounds(v@, from as int);
    }
    let mut i: usize = from;
    while i < v.len()
        invariant
            from <= i <= v@.len(),
            find_nl_from(v@, from as int) == find_nl_from(v@, i as int),
        decreases v@.len() - i,
    {
        if v[i] == '\n' {
            return i;
        }
        i = i + 1;
    }
    i
}

/// The views of split fields.
pub open spec fn char_vecs_view(s: Seq<Vec<char>>) -> Seq<Seq<char>> {
    s.map_values(|v: Vec<char>| v@)
}

fn split_line_fields(line: &Vec<char>) -> (fs: Vec<Vec<char>>)
    ensures
        char_vecs_view(fs@) == split_fields_from(line@, 0),
    decreases line@.len(),
{
    let mut fs: Vec<Vec<char>> = Vec::new();
    let mut idx: usize = 0;
    proof {
        assert(char_vecs_view(fs@) =~= Seq::<Seq<char>>::empty());
    }
    loop
        invariant
            idx <= line@.len(),
            split_fields_from(line@, 0) == char_vecs_view(fs@) + split_fields_from(
                line@,
                idx as int,
            ),
        decreases line@.len() - idx,
    {
        if idx >= line.len() {
            fs.push(Vec::new());
            proof {
                assert(split_fields_from(line@, idx as int) =~= seq![Seq::<char>::empty()]);
                assert(char_vecs_view(fs@) =~= split_fields_from(line@, 0));
            }
            return fs;
        }
        proof {
            lemma_find_delim_bounds(line@, idx as int);
        }
        let k = find_delim_exec(line, idx);
        if k >= line.len() {
            fs.push(copy_char_range(line, idx, line.len()));
            proof {
                assert(line@.subrange(idx as int, line@.len() as int) =~= line@.skip(idx as int));
                assert(split_fields_from(line@, idx as int) =~= seq![line@.skip(idx as int)]);
                assert(char_vecs_view(fs@) =~= split_fields_from(line@, 0));
            }
            return fs;
        }
        fs.push(copy_char_range(line, idx, k));
        proof {
            assert(split_fields_from(line@, idx as int) =~= seq![
                line@.subrange(idx as int, k as int),
            ] + split_fields_from(line@, k + 2));
            assert(char_vecs_view(fs@) + split_fields_from(line@, k + 2) =~= split_fields_from(
                line@,
                0,
            ));
        }
        idx = k + 2;
    }
}

/// Parses the adapter's line-oriented output: one mail item per line
/// of at least six double-pipe-separated fields; other lines drop out.
pub fn parse_email_output(stdout: &str) -> (r: Vec<Email>)
    ensures
        email_views(r@) == parse_output_from(stdout@, 0),
{
    let chars = str_chars_vec(stdout);
    let mut out: Vec<Email> = Vec::new();
    let mut idx: usize = 0;
    proof {
        assert(email_views(out@) =~= Seq::<EmailV>::empty());
    }
    while idx < chars.len()
        invariant
            idx <= chars@.len(),
            chars@ == stdout@,
            parse_output_from(stdout@, 0) == email_views(out@) + parse_output_from(
                stdout@,
                idx as int,
            ),
        decreases chars@.len() - idx,
    {
        proof {
            lemma_find_nl_bounds(chars@, idx as int);
        }
        let k = find_nl_exec(&chars, idx);
        let line = copy_char_range(&chars, idx, k);
        let fields = split_line_fields(&line);
        if fields.len() >= 6 {
            proof {
                assert(char_vecs_view(fields@)[0] == fields@[0]@);
                assert(char_vecs_view(fields@)[1] == fields@[1]@);
                assert(char_vecs_view(fields@)[2] == fields@[2]@);
                assert(char_vecs_view(fields@)[3] == fields@[3]@);
                assert(char_vecs_view(fields@)[4] == fields@[4]@);
                assert(char_vecs_view(fields@)[5] == fields@[5]@);
            }
            let email = Email {
                id: chars_to_string(&fields[0]),
                message_id: chars_to_string(&fields[0]),
                subject: chars_to_string(&fields[1]),
                sender: chars_to_string(&fields[2]),
                date_received: chars_to_string(&fields[3]),
                mailbox: chars_to_string(&fields[4]),
                account: chars_to_string(&fields[5]),
            };
            out.push(email);
            proof {
                assert(email_of_line(stdout@.subrange(idx as int, k as int)) matches Some(e)
                    ==> email_views(out@).last() == e);
                assert(email_views(out@) =~= email_views(out@).take(
                    email_views(out@).len() - 1,
                ).push(email_views(out@).last()));
                let nxt: int = if k >= chars@.len() {
                    chars@.len() as int
                } else {
                    k + 1
                };
                assert(parse_output_from(stdout@, idx as int) =~= seq![
                    email_of_line(stdout@.subrange(idx as int, k as int)).unwrap(),
                ] + parse_output_from(stdout@, nxt));
                assert(parse_output_from(stdout@, 0) =~= email_views(out@) + parse_output_from(
                    stdout@,
                    nxt,
                ));
            }
        } else {
            proof {
                let nxt: int = if k >= chars@.len() {
                    chars@.len() as int
                } else {
                    k + 1
                };
                assert(parse_output_from(stdout@, idx as int) =~= parse_output_from(
                    stdout@,
                    nxt,
                ));
            }
        }
        idx = if k < chars.len() {
            k + 1
        } else {
            chars.len()
        };
    }
    proof {
        assert(parse_output_from(stdout@, idx as int) =~= Seq::<EmailV>::empty());
        assert(email_views(out@) =~= email_views(out@) + parse_output_from(stdout@, idx as int));
    }
    out
}

} // verus!
