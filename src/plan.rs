use vstd::prelude::*;
use vstd::string::StringSliceAdditionalSpecFns;
use crate::registry::{bytes_equal, distinct_names, id_of, lemma_id_stable};
use crate::router::{contacts_wf, Contact};

verus! {

// ---------------------------------------------------------------------------
// The text format
//
// A contact plan is a sequence of lines separated by '\n'. Each line is a
// sequence of words separated by spaces, tabs or '\r'. A line is one of:
//   (nothing)                              blank: ignored
//   #...                                   comment: ignored
//   a range ...                            range entry: ignored
//   node NAME                              declares a node
//   a contact START END FROM TO RATE       a contact window [START, END)
// START and END are decimal seconds, optionally written with a leading '+';
// RATE is decimal. Any other line is malformed.
//
// Policies: a contact with START > END, or from a node to itself, is
// malformed. A zero-length window is kept; it can never be used. Duplicate
// contacts are kept; they offer nothing a single copy does not.
//
// Nodes get dense IDs in the order their names first occur, from a `node`
// line or from a contact (its FROM before its TO).
// ---------------------------------------------------------------------------

pub open spec fn is_blank(b: u8) -> bool {
    b == 32 || b == 9 || b == 13
}

pub open spec fn is_newline(b: u8) -> bool {
    b == 10
}

/// Adds the pending word, if any, to the words of a line.
pub open spec fn close_word(ws: Seq<Seq<u8>>, w: Seq<u8>) -> Seq<Seq<u8>> {
    if w.len() > 0 {
        ws.push(w)
    } else {
        ws
    }
}

/// State after reading `s`: the finished lines, the words of the current
/// line, and the current word.
pub open spec fn scan(s: Seq<u8>) -> (Seq<Seq<Seq<u8>>>, Seq<Seq<u8>>, Seq<u8>)
    decreases s.len(),
{
    if s.len() == 0 {
        (seq![], seq![], seq![])
    } else {
        let (ls, ws, w) = scan(s.drop_last());
        let b = s.last();
        if is_newline(b) {
            (ls.push(close_word(ws, w)), seq![], seq![])
        } else if is_blank(b) {
            (ls, close_word(ws, w), seq![])
        } else {
            (ls, ws, w.push(b))
        }
    }
}

/// The lines of `s`, each as its words.
pub open spec fn lines_of(s: Seq<u8>) -> Seq<Seq<Seq<u8>>> {
    let (ls, ws, w) = scan(s);
    ls.push(close_word(ws, w))
}

pub open spec fn is_digit(b: u8) -> bool {
    48 <= b <= 57
}

/// Value of a string of decimal digits.
pub open spec fn digits_value(s: Seq<u8>) -> int
    decreases s.len(),
{
    if s.len() == 0 {
        0
    } else {
        digits_value(s.drop_last()) * 10 + (s.last() - 48)
    }
}

pub open spec fn all_digits(s: Seq<u8>) -> bool {
    forall|i: int| 0 <= i < s.len() ==> #[trigger] is_digit(s[i])
}

/// A word read as a number of seconds or a rate: digits after an optional
/// '+', with a value that fits in 64 bits.
pub open spec fn number_of(w: Seq<u8>) -> Option<u64> {
    let d = if w.len() > 0 && w[0] == 43 {
        w.subrange(1, w.len() as int)
    } else {
        w
    };
    if d.len() > 0 && all_digits(d) && digits_value(d) <= u64::MAX {
        Some(digits_value(d) as u64)
    } else {
        None
    }
}

pub open spec fn kw_a() -> Seq<u8> {
    seq![97u8]
}

pub open spec fn kw_contact() -> Seq<u8> {
    seq![99u8, 111u8, 110u8, 116u8, 97u8, 99u8, 116u8]
}

pub open spec fn kw_range() -> Seq<u8> {
    seq![114u8, 97u8, 110u8, 103u8, 101u8]
}

pub open spec fn kw_node() -> Seq<u8> {
    seq![110u8, 111u8, 100u8, 101u8]
}

/// A blank line, a comment or a range entry.
pub open spec fn line_ignored(ws: Seq<Seq<u8>>) -> bool {
    ||| ws.len() == 0
    ||| (ws[0].len() > 0 && ws[0][0] == 35)
    ||| (ws.len() >= 2 && ws[0] == kw_a() && ws[1] == kw_range())
}

/// A node declaration.
pub open spec fn line_node(ws: Seq<Seq<u8>>) -> bool {
    ws.len() == 2 && ws[0] == kw_node()
}

/// Start, end and rate of a well-formed contact line.
pub open spec fn contact_fields(ws: Seq<Seq<u8>>) -> Option<(u64, u64, u64)> {
    if ws.len() == 7 && ws[0] == kw_a() && ws[1] == kw_contact() && number_of(ws[2]).is_some()
        && number_of(ws[3]).is_some() && number_of(ws[6]).is_some() && number_of(ws[2]).unwrap()
        <= number_of(ws[3]).unwrap() && ws[4] != ws[5] {
        Some((number_of(ws[2]).unwrap(), number_of(ws[3]).unwrap(), number_of(ws[6]).unwrap()))
    } else {
        None
    }
}

/// `names` with `w` added at the end, unless it is there already.
pub open spec fn intern(names: Seq<Seq<u8>>, w: Seq<u8>) -> Seq<Seq<u8>> {
    if names.contains(w) {
        names
    } else {
        names.push(w)
    }
}

/// Effect of line number `lineno` (from 1) with words `ws` on the node
/// names and contacts read so far; the third component is the number of a
/// malformed line.
pub open spec fn load_line(
    names: Seq<Seq<u8>>,
    cs: Seq<Contact>,
    ws: Seq<Seq<u8>>,
    lineno: nat,
) -> (Seq<Seq<u8>>, Seq<Contact>, Option<nat>) {
    if line_ignored(ws) {
        (names, cs, None)
    } else if line_node(ws) {
        (intern(names, ws[1]), cs, None)
    } else if let Some((start, end, rate)) = contact_fields(ws) {
        let n2 = intern(intern(names, ws[4]), ws[5]);
        let c = Contact {
            from: id_of(n2, ws[4]).unwrap(),
            to: id_of(n2, ws[5]).unwrap(),
            start,
            end,
            rate,
        };
        (n2, cs.push(c), None)
    } else {
        (names, cs, Some(lineno))
    }
}

/// Node names, contacts, and the first malformed line, after the lines.
pub open spec fn load(lines: Seq<Seq<Seq<u8>>>) -> (Seq<Seq<u8>>, Seq<Contact>, Option<nat>)
    decreases lines.len(),
{
    if lines.len() == 0 {
        (seq![], seq![], None)
    } else {
        let (names, cs, err) = load(lines.drop_last());
        if err.is_some() {
            (names, cs, err)
        } else {
            load_line(names, cs, lines.last(), lines.len())
        }
    }
}

/// The loaded plan of a text, or the number of its first malformed line.
pub open spec fn plan_of(text: Seq<u8>) -> (Seq<Seq<u8>>, Seq<Contact>, Option<nat>) {
    load(lines_of(text))
}

pub open spec fn words_view(ws: Seq<Vec<u8>>) -> Seq<Seq<u8>> {
    ws.map_values(|w: Vec<u8>| w@)
}

pub open spec fn lines_view(ls: Seq<Vec<Vec<u8>>>) -> Seq<Seq<Seq<u8>>> {
    ls.map_values(|l: Vec<Vec<u8>>| words_view(l@))
}

/// A contact plan after loading: node names in ID order, and contacts
/// between those IDs.
pub struct ContactPlan {
    pub names: Vec<Vec<u8>>,
    pub contacts: Vec<Contact>,
}

impl ContactPlan {
    pub open spec fn names_view(&self) -> Seq<Seq<u8>> {
        words_view(self.names@)
    }

    pub open spec fn wf(&self) -> bool {
        &&& distinct_names(self.names_view())
        &&& contacts_wf(self.names@.len() as int, self.contacts@)
    }
}

/// Why a contact plan could not be loaded: the number (from 1) of the first
/// malformed line.
#[derive(Clone, Copy, Debug, PartialEq, Eq, Structural)]
pub struct ParseError {
    pub line: usize,
}

/// A copy of the bytes of `w`.
pub fn copy_bytes(w: &Vec<u8>) -> (r: Vec<u8>)
    ensures
        r@ == w@,
{
    let mut r: Vec<u8> = Vec::new();
    let mut k: usize = 0;
    while k < w.len()
        invariant
            k <= w@.len(),
            r@ == w@.take(k as int),
        decreases w.len() - k,
    {
        r.push(w[k]);
        k += 1;
        assert(r@ =~= w@.take(k as int));
    }
    assert(r@ =~= w@);
    r
}

/// Splits text into lines of words.
pub fn split_lines(s: &[u8]) -> (r: Vec<Vec<Vec<u8>>>)
    ensures
        lines_view(r@) == lines_of(s@),
{
    let mut ls: Vec<Vec<Vec<u8>>> = Vec::new();
    let mut ws: Vec<Vec<u8>> = Vec::new();
    let mut w: Vec<u8> = Vec::new();
    let mut k: usize = 0;
    while k < s.len()
        invariant
            k <= s@.len(),
            scan(s@.take(k as int)) == (lines_view(ls@), words_view(ws@), w@),
        decreases s.len() - k,
    {
        let b = s[k];
        let ghost pre = s@.take(k as int);
        assert(s@.take(k + 1).drop_last() =~= pre);
        assert(s@.take(k + 1).last() == b);
        let ghost ls0 = lines_view(ls@);
        let ghost ws0 = words_view(ws@);
        let ghost w0 = w@;
        if b == 10 || b == 32 || b == 9 || b == 13 {
            if w.len() > 0 {
                ws.push(w);
                assert(words_view(ws@) =~= ws0.push(w0));
            }
            w = Vec::new();
            assert(words_view(ws@) == close_word(ws0, w0));
            if b == 10 {
                let ghost wsv = words_view(ws@);
                ls.push(ws);
                assert(lines_view(ls@) =~= ls0.push(wsv));
                ws = Vec::new();
                assert(words_view(ws@) =~= Seq::<Seq<u8>>::empty());
            }
        } else {
            w.push(b);
        }
        assert(w@ =~= scan(s@.take(k + 1)).2);
        k += 1;
    }
    assert(s@.take(s@.len() as int) =~= s@);
    let ghost ls0 = lines_view(ls@);
    let ghost ws0 = words_view(ws@);
    let ghost w0 = w@;
    if w.len() > 0 {
        ws.push(w);
        assert(words_view(ws@) =~= ws0.push(w0));
    }
    let ghost wsv = words_view(ws@);
    ls.push(ws);
    assert(lines_view(ls@) =~= ls0.push(wsv));
    ls
}

proof fn lemma_digits_nonneg(s: Seq<u8>)
    requires
        all_digits(s),
    ensures
        digits_value(s) >= 0,
    decreases s.len(),
{
    if s.len() > 0 {
        assert(is_digit(s[s.len() - 1]));
        assert(all_digits(s.drop_last())) by {
            assert forall|i: int| 0 <= i < s.drop_last().len() implies #[trigger] is_digit(
                s.drop_last()[i],
            ) by {
                assert(is_digit(s[i]));
            }
        }
        lemma_digits_nonneg(s.drop_last());
    }
}

/// A string of digits is worth at least as much as any of its prefixes.
proof fn lemma_digits_monotone(s: Seq<u8>, m: int)
    requires
        all_digits(s),
        0 <= m <= s.len(),
    ensures
        digits_value(s) >= digits_value(s.take(m)),
    decreases s.len(),
{
    if m == s.len() {
        assert(s.take(m) =~= s);
    } else {
        let t = s.drop_last();
        assert(all_digits(t)) by {
            assert forall|i: int| 0 <= i < t.len() implies #[trigger] is_digit(t[i]) by {
                assert(is_digit(s[i]));
            }
        }
        assert(is_digit(s[s.len() - 1]));
        lemma_digits_monotone(t, m);
        lemma_digits_nonneg(t);
        assert(t.take(m) =~= s.take(m));
    }
}

/// Reads a number word: digits after an optional '+'.
pub fn parse_number(w: &Vec<u8>) -> (r: Option<u64>)
    ensures
        r == number_of(w@),
{
    let start: usize = if w.len() > 0 && w[0] == 43 {
        1
    } else {
        0
    };
    let ghost d = if w@.len() > 0 && w@[0] == 43 {
        w@.subrange(1, w@.len() as int)
    } else {
        w@
    };
    assert(d =~= w@.subrange(start as int, w@.len() as int));
    if start >= w.len() {
        return None;
    }
    let mut v: u64 = 0;
    let mut k: usize = start;
    assert(w@.subrange(start as int, start as int) =~= Seq::<u8>::empty());
    while k < w.len()
        invariant
            start <= k <= w@.len(),
            d == w@.subrange(start as int, w@.len() as int),
            d.len() > 0,
            number_of(w@) == (if all_digits(d) && digits_value(d) <= u64::MAX {
                Some(digits_value(d) as u64)
            } else {
                None
            }),
            all_digits(w@.subrange(start as int, k as int)),
            v == digits_value(w@.subrange(start as int, k as int)),
        decreases w.len() - k,
    {
        let b = w[k];
        let ghost cur = w@.subrange(start as int, k as int);
        let ghost next = w@.subrange(start as int, k + 1);
        if b < 48 || b > 57 {
            assert(d[k - start] == b);
            assert(!is_digit(d[k - start]));
            assert(!all_digits(d));
            assert(number_of(w@) is None);
            return None;
        }
        assert(next.drop_last() =~= cur);
        assert(next.last() == b);
        assert(all_digits(next)) by {
            assert forall|i: int| 0 <= i < next.len() implies #[trigger] is_digit(next[i]) by {
                if i < cur.len() {
                    assert(next[i] == cur[i]);
                }
            }
        }
        let dig: u64 = (b - 48) as u64;
        if v > (u64::MAX - dig) / 10 {
            proof {
                assert(v * 10 + dig > u64::MAX) by (nonlinear_arith)
                    requires
                        v > (u64::MAX - dig) / 10,
                        dig <= 9,
                ;
                assert(digits_value(next) == v * 10 + dig);
                if all_digits(d) {
                    assert(d.take(k + 1 - start) =~= next);
                    lemma_digits_monotone(d, k + 1 - start);
                    assert(digits_value(d) > u64::MAX);
                }
                assert(number_of(w@) is None);
            }
            return None;
        }
        assert(v * 10 + dig <= u64::MAX) by (nonlinear_arith)
            requires
                v <= (u64::MAX - dig) / 10,
                dig <= 9,
        ;
        v = v * 10 + dig;
        k += 1;
    }
    assert(w@.subrange(start as int, k as int) =~= d);
    Some(v)
}

fn keyword_a() -> (r: Vec<u8>)
    ensures
        r@ == kw_a(),
{
    let r: Vec<u8> = vec![97u8];
    assert(r@ =~= kw_a());
    r
}

fn keyword_contact() -> (r: Vec<u8>)
    ensures
        r@ == kw_contact(),
{
    let r: Vec<u8> = vec![99u8, 111u8, 110u8, 116u8, 97u8, 99u8, 116u8];
    assert(r@ =~= kw_contact());
    r
}

fn keyword_range() -> (r: Vec<u8>)
    ensures
        r@ == kw_range(),
{
    let r: Vec<u8> = vec![114u8, 97u8, 110u8, 103u8, 101u8];
    assert(r@ =~= kw_range());
    r
}

fn keyword_node() -> (r: Vec<u8>)
    ensures
        r@ == kw_node(),
{
    let r: Vec<u8> = vec![110u8, 111u8, 100u8, 101u8];
    assert(r@ =~= kw_node());
    r
}

/// Whether a line is blank, a comment or a range entry.
fn ignored_line(ws: &Vec<Vec<u8>>) -> (r: bool)
    ensures
        r == line_ignored(words_view(ws@)),
{
    if ws.len() == 0 {
        return true;
    }
    assert(words_view(ws@)[0] == ws@[0]@);
    if ws[0].len() > 0 && ws[0][0] == 35 {
        return true;
    }
    if ws.len() >= 2 {
        assert(words_view(ws@)[1] == ws@[1]@);
        let a = keyword_a();
        let range = keyword_range();
        return bytes_equal(ws[0].as_slice(), a.as_slice()) && bytes_equal(
            ws[1].as_slice(),
            range.as_slice(),
        );
    }
    false
}

/// Whether a line declares a node.
fn node_line(ws: &Vec<Vec<u8>>) -> (r: bool)
    ensures
        r == line_node(words_view(ws@)),
{
    if ws.len() != 2 {
        return false;
    }
    assert(words_view(ws@)[0] == ws@[0]@);
    let node = keyword_node();
    bytes_equal(ws[0].as_slice(), node.as_slice())
}

/// Start, end and rate of a contact line, if it is a well-formed one.
fn read_contact_fields(ws: &Vec<Vec<u8>>) -> (r: Option<(u64, u64, u64)>)
    ensures
        r == contact_fields(words_view(ws@)),
{
    if ws.len() != 7 {
        return None;
    }
    let ghost v = words_view(ws@);
    assert(forall|i: int| 0 <= i < 7 ==> #[trigger] v[i] == ws@[i]@);
    let a = keyword_a();
    let contact = keyword_contact();
    if !bytes_equal(ws[0].as_slice(), a.as_slice()) || !bytes_equal(
        ws[1].as_slice(),
        contact.as_slice(),
    ) {
        return None;
    }
    let start = parse_number(&ws[2]);
    let end = parse_number(&ws[3]);
    let rate = parse_number(&ws[6]);
    match (start, end, rate) {
        (Some(s), Some(e), Some(r)) => {
            if s <= e && !bytes_equal(ws[4].as_slice(), ws[5].as_slice()) {
                Some((s, e, r))
            } else {
                None
            }
        },
        _ => None,
    }
}

/// Position of `w` among `names`, adding it at the end if it is new.
fn intern_name(names: &mut Vec<Vec<u8>>, w: &Vec<u8>) -> (id: usize)
    requires
        distinct_names(words_view(old(names)@)),
    ensures
        words_view(final(names)@) == intern(words_view(old(names)@), w@),
        distinct_names(words_view(final(names)@)),
        id < final(names)@.len(),
        words_view(final(names)@)[id as int] == w@,
{
    let ghost nv = words_view(names@);
    let mut k: usize = 0;
    while k < names.len()
        invariant
            nv == words_view(names@),
            distinct_names(nv),
            k <= names@.len(),
            forall|i: int| 0 <= i < k ==> nv[i] != w@,
        decreases names.len() - k,
    {
        assert(nv[k as int] == names@[k as int]@);
        if bytes_equal(names[k].as_slice(), w.as_slice()) {
            assert(nv.contains(w@));
            return k;
        }
        k += 1;
    }
    assert(!nv.contains(w@));
    let id = names.len();
    names.push(copy_bytes(w));
    assert(words_view(names@) =~= nv.push(w@));
    id
}

/// Once a prefix of the lines holds a malformed one, loading stops there.
proof fn lemma_load_error_persists(lines: Seq<Seq<Seq<u8>>>, m: int)
    requires
        0 <= m <= lines.len(),
        load(lines.take(m)).2.is_some(),
    ensures
        load(lines) == load(lines.take(m)),
    decreases lines.len(),
{
    if m == lines.len() {
        assert(lines.take(m) =~= lines);
    } else {
        assert(lines.drop_last().take(m) =~= lines.take(m));
        lemma_load_error_persists(lines.drop_last(), m);
    }
}

/// Loads a contact plan from its text. Fails with the number of the first
/// malformed line; otherwise the nodes are numbered in first-seen order.
pub fn parse_contact_plan(text: &str) -> (r: Result<ContactPlan, ParseError>)
    ensures
        r is Err <==> plan_of(text.spec_bytes()).2 is Some,
        r matches Err(e) ==> plan_of(text.spec_bytes()).2 == Some(e.line as nat),
        r matches Ok(p) ==> {
            &&& p.wf()
            &&& p.names_view() == plan_of(text.spec_bytes()).0
            &&& p.contacts@ == plan_of(text.spec_bytes()).1
        },
{
    let lines = split_lines(text.as_bytes());
    let ghost lv = lines_view(lines@);
    let mut names: Vec<Vec<u8>> = Vec::new();
    let mut contacts: Vec<Contact> = Vec::new();
    let mut k: usize = 0;
    assert(lv.take(0) =~= Seq::<Seq<Seq<u8>>>::empty());
    assert(words_view(names@) =~= Seq::<Seq<u8>>::empty());
    while k < lines.len()
        invariant
            lv == lines_view(lines@),
            lv == lines_of(text.spec_bytes()),
            k <= lines@.len(),
            load(lv.take(k as int)) == (words_view(names@), contacts@, None::<nat>),
            distinct_names(words_view(names@)),
            contacts_wf(names@.len() as int, contacts@),
        decreases lines.len() - k,
    {
        let ws = &lines[k];
        let ghost wv = words_view(ws@);
        assert(lv[k as int] == wv);
        assert(lv.take(k + 1).drop_last() =~= lv.take(k as int));
        assert(lv.take(k + 1).last() == wv);
        if ignored_line(ws) {
        } else if node_line(ws) {
            assert(wv[1] == ws@[1]@);
            intern_name(&mut names, &ws[1]);
        } else {
            match read_contact_fields(ws) {
                Some((start, end, rate)) => {
                    assert(wv[4] == ws@[4]@ && wv[5] == ws@[5]@);
                    let ghost n0 = words_view(names@);
                    let from = intern_name(&mut names, &ws[4]);
                    let ghost n1 = words_view(names@);
                    let to = intern_name(&mut names, &ws[5]);
                    let ghost n2 = words_view(names@);
                    assert(n2[from as int] == n1[from as int]);
                    proof {
                        lemma_id_stable(n2, wv[4], from as int);
                        lemma_id_stable(n2, wv[5], to as int);
                    }
                    let c = Contact { from, to, start, end, rate };
                    let ghost c0 = contacts@;
                    contacts.push(c);
                    assert(contacts_wf(names@.len() as int, contacts@)) by {
                        assert forall|j: int| 0 <= j < contacts@.len() implies #[trigger] contacts@[j].from
                            < names@.len() && contacts@[j].to < names@.len() by {
                            if j < contacts@.len() - 1 {
                                assert(contacts@[j] == c0[j]);
                                assert(c0[j].from < n0.len() && c0[j].to < n0.len());
                                assert(n0.len() <= n2.len());
                            }
                        }
                    }
                },
                None => {
                    let line = k + 1;
                    proof {
                        lemma_load_error_persists(lv, k + 1);
                        assert(lv.take(lv.len() as int) =~= lv);
                    }
                    return Err(ParseError { line });
                },
            }
        }
        k += 1;
    }
    assert(lv.take(lv.len() as int) =~= lv);
    Ok(ContactPlan { names, contacts })
}

} // verus!
