use vstd::prelude::*;
use crate::scan::{
    command_views, error_matches, find_deletions, find_model, valid_commands, ScanError,
};
use crate::span::{models_of, spans_in_bounds, spans_sorted_disjoint, Deletion, SpanModel};
use crate::text::{chars_string, str_chars};

verus! {

/// The document with the characters of each span removed.  The spans are
/// taken from the back, so that removing one leaves the positions of those
/// before it meaningful.
pub open spec fn remove_spans(t: Seq<char>, spans: Seq<SpanModel>) -> Seq<char>
    decreases spans.len(),
{
    if spans.len() == 0 {
        t
    } else {
        let d = spans.last();
        remove_spans(
            t.subrange(0, d.start) + t.subrange(d.end + 1, t.len() as int),
            spans.drop_last(),
        )
    }
}

/// A fresh list holding the characters of `v` outside `[start, end]`.
fn remove_range(v: &Vec<char>, start: usize, end: usize) -> (r: Vec<char>)
    requires
        start <= end < v@.len(),
    ensures
        r@ == v@.subrange(0, start as int) + v@.subrange(end + 1, v@.len() as int),
{
    let vn = v.len();
    let mut r: Vec<char> = Vec::new();
    let mut i: usize = 0;
    while i < start
        invariant
            0 <= i <= start <= v@.len(),
            r@ == v@.subrange(0, i as int),
        decreases start - i,
    {
        r.push(v[i]);
        proof {
            assert(r@ =~= v@.subrange(0, i + 1));
        }
        i = i + 1;
    }
    let mut k: usize = end + 1;
    while k < vn
        invariant
            vn == v@.len(),
            start <= end < v@.len(),
            end + 1 <= k <= v@.len(),
            r@ == v@.subrange(0, start as int) + v@.subrange(end + 1, k as int),
        decreases v@.len() - k,
    {
        r.push(v[k]);
        proof {
            assert(r@ =~= v@.subrange(0, start as int) + v@.subrange(end + 1, k + 1));
        }
        k = k + 1;
    }
    r
}

/// Remove each span's characters from the text, taking the spans from the
/// back so that the positions of the spans still to remove stay valid, and
/// return the number of spans removed.
///
/// The spans must be ascending and disjoint and lie inside the text; the
/// list a successful scan returns satisfies this.
pub fn clean_text(text: &mut String, deletions: Vec<Deletion>) -> (n: usize)
    requires
        spans_sorted_disjoint(models_of(deletions@)),
        spans_in_bounds(models_of(deletions@), old(text)@.len() as int),
    ensures
        final(text)@ == remove_spans(old(text)@, models_of(deletions@)),
        n == deletions@.len(),
        deletions@.len() == 0 ==> final(text)@ == old(text)@,
{
    let ghost sp = models_of(deletions@);
    let ghost oldt = old(text)@;
    let mut chars = str_chars(text.as_str());
    let n = deletions.len();
    let mut j: usize = n;
    proof {
        assert(sp.subrange(0, n as int) =~= sp);
    }
    while j > 0
        invariant
            0 <= j <= n,
            n == deletions@.len(),
            sp == models_of(deletions@),
            spans_sorted_disjoint(sp),
            spans_in_bounds(sp, oldt.len() as int),
            remove_spans(oldt, sp) == remove_spans(chars@, sp.subrange(0, j as int)),
            j > 0 ==> sp[j - 1].end < chars@.len() && chars@.subrange(0, sp[j - 1].end + 1)
                == oldt.subrange(0, sp[j - 1].end + 1),
        decreases j,
    {
        let d = deletions[j - 1];
        proof {
            assert(sp[j - 1] == d@);
            assert(sp[j - 1].wf());
        }
        let newchars = remove_range(&chars, d.start, d.end);
        proof {
            assert(sp.subrange(0, j as int).drop_last() =~= sp.subrange(0, j - 1));
            assert(sp.subrange(0, j as int).last() == sp[j - 1]);
            assert(remove_spans(chars@, sp.subrange(0, j as int)) == remove_spans(
                newchars@,
                sp.subrange(0, j - 1),
            ));
            if j >= 2 {
                assert(sp[j - 2].end < sp[j - 1].start);
                assert(sp[j - 2].wf());
                assert(sp[j - 2].end < newchars@.len());
                assert(newchars@.subrange(0, sp[j - 2].end + 1) =~= oldt.subrange(
                    0,
                    sp[j - 2].end + 1,
                ));
            }
        }
        chars = newchars;
        j = j - 1;
    }
    proof {
        assert(sp.subrange(0, 0) =~= Seq::<SpanModel>::empty());
    }
    *text = chars_string(&chars);
    n
}

/// Scan the document for the requested commands and remove every span the
/// scan reports, in one call.  On any fault the document is left exactly as
/// it was; on success the result counts the removed spans, two per command.
pub fn try_clean(text: &mut String, commands: Vec<&str>, from: Option<usize>, to: Option<
    usize,
>) -> (r: Result<usize, ScanError>)
    requires
        valid_commands(command_views(commands@)),
    ensures
        r is Err ==> final(text)@ == old(text)@,
        ({
            let cmds = command_views(commands@);
            let bad = from is Some && to is Some && from->0 > to->0;
            &&& (bad ==> (r matches Err(e) && e == ScanError::InvalidRange))
            &&& (!bad ==> match find_model(old(text)@, cmds, from, to) {
                Ok(spans) => r matches Ok(n) && n == spans.len() && final(text)@ == remove_spans(
                    old(text)@,
                    spans,
                ),
                Err(issue) => r matches Err(e) && error_matches(e, issue, old(text)@),
            })
        }),
{
    match find_deletions(text.as_str(), commands, from, to) {
        Ok(deletions) => {
            let ghost spans = models_of(deletions@);
            let count = clean_text(text, deletions);
            Ok(count)
        },
        Err(e) => Err(e),
    }
}

} // verus!
