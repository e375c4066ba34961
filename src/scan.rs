use vstd::prelude::*;
use crate::decimal::{decimal, to_decimal};

verus! {

/// One connection attempt to make: an address, a port and a time limit in milliseconds.
#[derive(Clone, Debug)]
pub struct ProbeTask {
    pub ip: String,
    pub port: u16,
    pub timeout_ms: u64,
}

/// The verdict of one connection attempt.
#[derive(Clone, Debug)]
pub struct ProbeResult {
    pub ip: String,
    pub port: u16,
    pub open: bool,
}

impl View for ProbeTask {
    type V = (Seq<char>, u16, u64);

    open spec fn view(&self) -> (Seq<char>, u16, u64) {
        (self.ip@, self.port, self.timeout_ms)
    }
}

impl View for ProbeResult {
    type V = (Seq<char>, u16, bool);

    open spec fn view(&self) -> (Seq<char>, u16, bool) {
        (self.ip@, self.port, self.open)
    }
}

/// The views of a sequence of results.
pub open spec fn result_models(v: Seq<ProbeResult>) -> Seq<(Seq<char>, u16, bool)> {
    v.map_values(|r: ProbeResult| r@)
}

/// The views of a sequence of tasks.
pub open spec fn task_models(v: Seq<ProbeTask>) -> Seq<(Seq<char>, u16, u64)> {
    v.map_values(|t: ProbeTask| t@)
}

/// Whether a verdict is passed on to the output under the display filter.
pub open spec fn is_forwarded(show_only_open: bool, open: bool) -> bool {
    !show_only_open || open
}

/// The results that the display filter lets through, in the order they came.
pub open spec fn forwarded(show_only_open: bool, seen: Seq<(Seq<char>, u16, bool)>) -> Seq<
    (Seq<char>, u16, bool),
>
    decreases seen.len(),
{
    if seen.len() == 0 {
        seq![]
    } else {
        let rest = forwarded(show_only_open, seen.drop_last());
        if is_forwarded(show_only_open, seen.last().2) {
            rest.push(seen.last())
        } else {
            rest
        }
    }
}

/// What the result buffer holds after the results `seen`: the forwarded ones in
/// structured mode, nothing in text mode, where each is printed instead.
pub open spec fn buffered(structured: bool, show_only_open: bool, seen: Seq<(Seq<char>, u16, bool)>) -> Seq<
    (Seq<char>, u16, bool),
> {
    if structured {
        forwarded(show_only_open, seen)
    } else {
        seq![]
    }
}

/// The line that reports one result in text mode.
pub open spec fn status_text(r: (Seq<char>, u16, bool)) -> Seq<char> {
    "Status: Port "@ + decimal(r.1 as nat) + " on IP "@ + r.0 + " is "@ + if r.2 {
        "OPEN"@
    } else {
        "CLOSED"@
    }
}

/// Names `results_json`: the text that the `json` crate writes for an array of
/// objects with the fields `ip`, `port` and `status`, one per entry, in order.
pub uninterp spec fn results_json(entries: Seq<(Seq<char>, u16, bool)>) -> Seq<char>;

/// Relies on `json::JsonValue::dump`, applied to an array that holds for each
/// entry an object with `ip` (a string), `port` (a number) and `status` (a
/// boolean): the text depends on the entries alone, and an empty array is `[]`.
#[verifier::external_body]
fn dump_results(entries: &Vec<ProbeResult>) -> (r: String)
    ensures
        r@ == results_json(result_models(entries@)),
        entries@.len() == 0 ==> r@ == "[]"@,
{
    let mut doc = json::JsonValue::new_array();
    for e in entries.iter() {
        let mut obj = json::JsonValue::new_object();
        obj["ip"] = e.ip.as_str().into();
        obj["port"] = e.port.into();
        obj["status"] = e.open.into();
        let _ = doc.push(obj);
    }
    doc.dump()
}

/// One task per pair of an address and a port, addresses in the outer order
/// and ports in the inner one.
pub fn plan_tasks(ips: &Vec<String>, ports: &Vec<u16>, timeout_ms: u64) -> (r: Vec<ProbeTask>)
    requires
        ips@.len() * ports@.len() <= usize::MAX,
    ensures
        r@.len() == ips@.len() * ports@.len(),
        forall|k: int|
            0 <= k < r@.len() ==> #[trigger] r@[k]@ == (
                ips@[k / ports@.len() as int]@,
                ports@[k % ports@.len() as int],
                timeout_ms,
            ),
{
    let m = ips.len();
    let n = ports.len();
    let mut r: Vec<ProbeTask> = Vec::new();
    let mut i: usize = 0;
    while i < m
        invariant
            m == ips@.len(),
            n == ports@.len(),
            m * n <= usize::MAX,
            i <= m,
            r@.len() == i * n,
            forall|k: int|
                0 <= k < r@.len() ==> #[trigger] r@[k]@ == (
                    ips@[k / n as int]@,
                    ports@[k % n as int],
                    timeout_ms,
                ),
        decreases m - i,
    {
        let mut j: usize = 0;
        while j < n
            invariant
                m == ips@.len(),
                n == ports@.len(),
                m * n <= usize::MAX,
                i < m,
                j <= n,
                r@.len() == i * n + j,
                forall|k: int|
                    0 <= k < r@.len() ==> #[trigger] r@[k]@ == (
                        ips@[k / n as int]@,
                        ports@[k % n as int],
                        timeout_ms,
                    ),
            decreases n - j,
        {
            proof {
                assert(i * n + j < m * n) by (nonlinear_arith)
                    requires
                        i < m,
                        j < n,
                ;
                vstd::arithmetic::div_mod::lemma_fundamental_div_mod_converse(
                    (i * n + j) as int,
                    n as int,
                    i as int,
                    j as int,
                );
            }
            r.push(ProbeTask { ip: ips[i].clone(), port: ports[j], timeout_ms });
            j = j + 1;
        }
        proof {
            assert((i + 1) * n == i * n + n) by (nonlinear_arith);
        }
        i = i + 1;
    }
    proof {
        if n == 0 {
            assert(r@.len() == 0) by (nonlinear_arith)
                requires
                    r@.len() == i * n,
                    n == 0,
            ;
        }
    }
    r
}

/// Whether a verdict is passed on to the output under the display filter.
pub fn forwards(show_only_open: bool, open: bool) -> (r: bool)
    ensures
        r == is_forwarded(show_only_open, open),
{
    !show_only_open || open
}

/// Writes the line that reports one result in text mode.
pub fn status_line(result: &ProbeResult) -> (r: String)
    ensures
        r@ == status_text(result@),
{
    let mut line = String::from_str("Status: Port ");
    line.append(to_decimal(result.port).as_str());
    line.append(" on IP ");
    line.append(result.ip.as_str());
    line.append(" is ");
    if result.open {
        line.append("OPEN");
    } else {
        line.append("CLOSED");
    }
    line
}

/// The state of one scan: how many tasks there are, the display filter, the
/// output format, how many results have come back, and the buffer that
/// structured output collects.
pub struct ScanSession {
    total: usize,
    show_only_open: bool,
    structured: bool,
    completed: usize,
    results: Vec<ProbeResult>,
    seen: Ghost<Seq<(Seq<char>, u16, bool)>>,
}

impl ScanSession {
    /// The number of tasks dispatched.
    pub closed spec fn total(&self) -> nat {
        self.total as nat
    }

    /// Whether closed ports are left out of the output.
    pub closed spec fn only_open(&self) -> bool {
        self.show_only_open
    }

    /// Whether results are collected into one document rather than printed.
    pub closed spec fn is_structured(&self) -> bool {
        self.structured
    }

    /// Every result that has come back, in the order it came.
    pub closed spec fn seen(&self) -> Seq<(Seq<char>, u16, bool)> {
        self.seen@
    }

    /// The results that the structured document will hold.
    pub closed spec fn kept(&self) -> Seq<(Seq<char>, u16, bool)> {
        result_models(self.results@)
    }

    /// The session's invariant: no more results than tasks, and the buffer
    /// holds what the filter and the format let through.
    pub closed spec fn wf(&self) -> bool {
        &&& self.completed as nat == self.seen@.len()
        &&& self.completed <= self.total
        &&& self.kept() == buffered(self.structured, self.show_only_open, self.seen@)
    }

    /// Starts a scan of `total` tasks.
    pub fn new(total: usize, show_only_open: bool, structured: bool) -> (r: Self)
        ensures
            r.wf(),
            r.total() == total,
            r.only_open() == show_only_open,
            r.is_structured() == structured,
            r.seen() == Seq::<(Seq<char>, u16, bool)>::empty(),
            r.kept() == Seq::<(Seq<char>, u16, bool)>::empty(),
    {
        let r = ScanSession {
            total,
            show_only_open,
            structured,
            completed: 0,
            results: Vec::new(),
            seen: Ghost(Seq::empty()),
        };
        assert(r.kept() =~= Seq::<(Seq<char>, u16, bool)>::empty());
        r
    }

    /// Takes in the result of one task. In text mode a forwarded result comes
    /// back as the line to print; in structured mode it joins the buffer.
    pub fn record(&mut self, result: ProbeResult) -> (line: Option<String>)
        requires
            old(self).wf(),
            old(self).seen().len() < old(self).total(),
        ensures
            final(self).wf(),
            final(self).total() == old(self).total(),
            final(self).only_open() == old(self).only_open(),
            final(self).is_structured() == old(self).is_structured(),
            final(self).seen() == old(self).seen().push(result@),
            final(self).kept() == buffered(
                final(self).is_structured(),
                final(self).only_open(),
                final(self).seen(),
            ),
            line matches Some(l) ==> l@ == status_text(result@),
            line is Some <==> (!old(self).is_structured() && is_forwarded(
                old(self).only_open(),
                result.open,
            )),
    {
        let ghost before = self.seen@;
        let ghost model = result@;
        self.completed = self.completed + 1;
        self.seen = Ghost(self.seen@.push(result@));
        assert(self.seen@.drop_last() =~= before);
        let mut line: Option<String> = None;
        if forwards(self.show_only_open, result.open) {
            if self.structured {
                let ghost kept_before = result_models(self.results@);
                self.results.push(result);
                assert(result_models(self.results@) =~= kept_before.push(model));
            } else {
                line = Some(status_line(&result));
            }
        }
        line
    }

    /// Whether every task has reported back: the completion barrier.
    pub fn is_drained(&self) -> (r: bool)
        requires
            self.wf(),
        ensures
            r == (self.seen().len() == self.total()),
    {
        self.completed == self.total
    }

    /// How many tasks have reported back.
    pub fn completed(&self) -> (r: usize)
        requires
            self.wf(),
        ensures
            r == self.seen().len(),
    {
        self.completed
    }

    /// The results collected for the structured document.
    pub fn results(&self) -> (r: &Vec<ProbeResult>)
        ensures
            result_models(r@) == self.kept(),
    {
        &self.results
    }

    /// Ends the scan once every task has reported back, and writes the
    /// structured document of the collected results.
    pub fn into_document(self) -> (r: String)
        requires
            self.wf(),
            self.seen().len() == self.total(),
        ensures
            r@ == results_json(self.kept()),
    {
        dump_results(&self.results)
    }
}

proof fn lemma_forwarded_open(seen: Seq<(Seq<char>, u16, bool)>)
    ensures
        forall|i: int| 0 <= i < forwarded(true, seen).len() ==> #[trigger] forwarded(true, seen)[i].2,
    decreases seen.len(),
{
    if seen.len() > 0 {
        let rest = forwarded(true, seen.drop_last());
        lemma_forwarded_open(seen.drop_last());
        assert forall|i: int| 0 <= i < forwarded(true, seen).len() implies #[trigger] forwarded(
            true,
            seen,
        )[i].2 by {
            if i < rest.len() {
                assert(rest[i].2);
            }
        }
    }
}

proof fn lemma_forwarded_all(seen: Seq<(Seq<char>, u16, bool)>)
    ensures
        forwarded(false, seen) == seen,
    decreases seen.len(),
{
    if seen.len() > 0 {
        lemma_forwarded_all(seen.drop_last());
        assert(seen.drop_last().push(seen.last()) =~= seen);
    }
}

/// With the filter on, the structured document holds no closed port.
pub proof fn law_only_open_results(s: &ScanSession)
    requires
        s.wf(),
        s.only_open(),
    ensures
        forall|i: int| 0 <= i < s.kept().len() ==> #[trigger] s.kept()[i].2,
{
    lemma_forwarded_open(s.seen());
}

/// With the filter off, the structured document of a finished scan holds one
/// entry per dispatched task: every result, in the order it came.
pub proof fn law_all_results(s: &ScanSession)
    requires
        s.wf(),
        !s.only_open(),
        s.is_structured(),
        s.seen().len() == s.total(),
    ensures
        s.kept() == s.seen(),
        s.kept().len() == s.total(),
{
    lemma_forwarded_all(s.seen());
}

/// The completion barrier never overshoots: a session never holds more
/// results than tasks were dispatched, so `is_drained` turns true exactly when
/// the last of them has been recorded, and `record` is refused after that.
pub proof fn law_completions_bounded(s: &ScanSession)
    requires
        s.wf(),
    ensures
        s.seen().len() <= s.total(),
{
}

} // verus!
