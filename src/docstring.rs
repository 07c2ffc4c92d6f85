use vstd::prelude::*;
use vstd::string::StrSliceExecFns;

verus! {

/// What `str::trim` leaves of a string: the characters with the Unicode
/// `White_Space` property removed from both ends.
pub uninterp spec fn trimmed(s: Seq<char>) -> Seq<char>;

/// Relies on `str::trim`, copied into an owned string.
#[verifier::external_body]
fn trim(s: &str) -> (r: String)
    ensures
        r@ == trimmed(s@),
{
    s.trim().to_string()
}

/// Relies on `String::push`: the character is appended.
#[verifier::external_body]
pub(crate) fn push_char(s: &mut String, c: char)
    ensures
        final(s)@ == old(s)@.push(c),
{
    s.push(c)
}

/// Relies on `String::push_str`: the text is appended.
#[verifier::external_body]
pub(crate) fn push_str(s: &mut String, t: &str)
    ensures
        final(s)@ == old(s)@ + t@,
{
    s.push_str(t)
}

/// The pieces of `s` between newline characters; never empty.
pub open spec fn split_lines(s: Seq<char>) -> Seq<Seq<char>>
    decreases s.len(),
{
    if s.len() == 0 {
        seq![Seq::empty()]
    } else {
        let prev = split_lines(s.drop_last());
        if s.last() == '\n' {
            prev.push(Seq::empty())
        } else {
            prev.update(prev.len() - 1, prev.last().push(s.last()))
        }
    }
}

/// Each line trimmed, the lines joined with newlines.
pub open spec fn join_trimmed(ls: Seq<Seq<char>>) -> Seq<char>
    decreases ls.len(),
{
    if ls.len() == 0 {
        Seq::empty()
    } else if ls.len() == 1 {
        trimmed(ls[0])
    } else {
        join_trimmed(ls.drop_last()) + seq!['\n'] + trimmed(ls.last())
    }
}

/// A documentation string as it is shown: trimmed as a whole, then line by
/// line.
pub open spec fn normalized_doc(doc: Seq<char>) -> Seq<char> {
    join_trimmed(split_lines(trimmed(doc)))
}

proof fn lemma_split_lines_nonempty(s: Seq<char>)
    ensures
        split_lines(s).len() >= 1,
    decreases s.len(),
{
    if s.len() > 0 {
        lemma_split_lines_nonempty(s.drop_last());
    }
}

/// Normalizes a documentation string: the text is trimmed, then each of its
/// lines is trimmed, and the lines are joined with newlines.
pub fn format_doc_string(doc: &str) -> (r: String)
    ensures
        r@ == normalized_doc(doc@),
{
    let t = trim(doc);
    let ts = t.as_str();
    let n = ts.unicode_len();
    let mut result = String::new();
    let mut line = String::new();
    let mut first = true;
    let mut i: usize = 0;
    while i < n
        invariant
            n == t@.len(),
            ts@ == t@,
            0 <= i <= n,
            split_lines(t@.take(i as int)).len() >= 1,
            split_lines(t@.take(i as int)).last() == line@,
            first == (split_lines(t@.take(i as int)).len() == 1),
            first ==> result@ == Seq::<char>::empty(),
            !first ==> result@ == join_trimmed(split_lines(t@.take(i as int)).drop_last()),
        decreases n - i,
    {
        let c = ts.get_char(i);
        let ghost prev = split_lines(t@.take(i as int));
        proof {
            assert(t@.take(i as int + 1).drop_last() =~= t@.take(i as int));
            assert(t@.take(i as int + 1).last() == c);
        }
        if c == '\n' {
            let tl = trim(line.as_str());
            if !first {
                push_char(&mut result, '\n');
            }
            push_str(&mut result, tl.as_str());
            first = false;
            line = String::new();
            proof {
                let next = split_lines(t@.take(i as int + 1));
                assert(next == prev.push(Seq::<char>::empty()));
                assert(next.drop_last() =~= prev);
                if prev.len() == 1 {
                    assert(result@ =~= join_trimmed(prev));
                } else {
                    assert(result@ =~= join_trimmed(prev));
                }
            }
        } else {
            push_char(&mut line, c);
            proof {
                let next = split_lines(t@.take(i as int + 1));
                assert(next.drop_last() =~= prev.drop_last());
            }
        }
        i = i + 1;
    }
    proof {
        assert(t@.take(i as int) =~= t@);
        lemma_split_lines_nonempty(t@);
    }
    let tl = trim(line.as_str());
    if !first {
        push_char(&mut result, '\n');
    }
    push_str(&mut result, tl.as_str());
    proof {
        let ls = split_lines(t@);
        if ls.len() == 1 {
            assert(result@ =~= join_trimmed(ls));
        } else {
            assert(result@ =~= join_trimmed(ls));
        }
    }
    result
}

} // verus!
