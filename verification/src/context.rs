//! Keyword search that shows the lines around each hit.
use vstd::prelude::*;

use crate::analysis::string_views;
use crate::text::{
    chars_of, contains_chars, decimal, has_substring, push_chars, push_decimal, push_str,
    string_from_chars,
};

verus! {

/// What a context search needs: the file, the keyword, how many lines to show before and
/// after each hit, and the most hits (`0`: no limit).
#[derive(Debug, Clone)]
pub struct ContextOptions {
    pub path: String,
    pub keyword: String,
    pub before: usize,
    pub after: usize,
    pub limit: usize,
}

/// The heading of hit number `n`: `----- match n -----`.
pub open spec fn match_header(n: nat) -> Seq<char> {
    seq!['-', '-', '-', '-', '-', ' ', 'm', 'a', 't', 'c', 'h', ' '] + decimal(n) + seq![
        ' ',
        '-',
        '-',
        '-',
        '-',
        '-',
    ]
}

/// Line `n` with its marker: `-` before a hit, `>` for the hit, `+` after it.
pub open spec fn marked_line(n: nat, marker: char, text: Seq<char>) -> Seq<char> {
    decimal(n) + seq![marker, ' '] + text
}

/// The lines kept before a hit, each marked with `-`.
pub open spec fn window_output(w: Seq<(nat, Seq<char>)>) -> Seq<Seq<char>> {
    w.map_values(|p: (nat, Seq<char>)| marked_line(p.0, '-', p.1))
}

/// `w` with `x` added, keeping the last `before` entries.
pub open spec fn slide(w: Seq<(nat, Seq<char>)>, x: (nat, Seq<char>), before: nat) -> Seq<
    (nat, Seq<char>),
> {
    let w2 = w.push(x);
    if w2.len() > before {
        w2.drop_first()
    } else {
        w2
    }
}

/// The state of a context search.
pub struct ContextScan {
    keyword: Vec<char>,
    before: usize,
    after: usize,
    limit: usize,
    window: Vec<(usize, String)>,
    after_left: usize,
    count: usize,
    lines: usize,
    done: bool,
}

/// The model of a [`ContextScan`].
pub struct ContextModel {
    pub keyword: Seq<char>,
    pub before: nat,
    pub after: nat,
    pub limit: nat,
    pub window: Seq<(nat, Seq<char>)>,
    pub after_left: nat,
    pub count: nat,
    pub lines: nat,
    pub done: bool,
}

pub open spec fn window_model(w: Seq<(usize, String)>) -> Seq<(nat, Seq<char>)> {
    w.map_values(|p: (usize, String)| (p.0 as nat, p.1@))
}

impl ContextScan {
    pub closed spec fn model(self) -> ContextModel {
        ContextModel {
            keyword: self.keyword@,
            before: self.before as nat,
            after: self.after as nat,
            limit: self.limit as nat,
            window: window_model(self.window@),
            after_left: self.after_left as nat,
            count: self.count as nat,
            lines: self.lines as nat,
            done: self.done,
        }
    }

    /// While the search goes on, the kept lines are the last (at most `before`) lines read, in
    /// order; the hits stay
    /// within the limit and the search is over exactly when it is reached.
    pub open spec fn well_formed(self) -> bool {
        let m = self.model();
        &&& m.window.len() <= m.before
        &&& m.window.len() <= m.lines
        &&& !m.done ==> forall|k: int|
            0 <= k < m.window.len() ==> (#[trigger] m.window[k]).0 == m.lines - m.window.len()
                + 1 + k
        &&& m.limit == 0 || m.count <= m.limit
        &&& m.done <==> (m.limit > 0 && m.count == m.limit)
    }

    /// A search as `options` describe it, before the first line.
    pub fn new(options: &ContextOptions) -> (s: ContextScan)
        ensures
            s.well_formed(),
            s.model() == (ContextModel {
                keyword: options.keyword@,
                before: options.before as nat,
                after: options.after as nat,
                limit: options.limit as nat,
                window: seq![],
                after_left: 0,
                count: 0,
                lines: 0,
                done: false,
            }),
    {
        let s = ContextScan {
            keyword: chars_of(options.keyword.as_str()),
            before: options.before,
            after: options.after,
            limit: options.limit,
            window: Vec::new(),
            after_left: 0,
            count: 0,
            lines: 0,
            done: false,
        };
        assert(window_model(s.window@) =~= Seq::<(nat, Seq<char>)>::empty());
        s
    }

    /// The number of hits.
    pub fn count(&self) -> (n: usize)
        ensures
            n == self.model().count,
    {
        self.count
    }

    pub fn is_done(&self) -> (b: bool)
        ensures
            b == self.model().done,
    {
        self.done
    }

    /// Takes the next line and returns the lines to show. A hit shows its heading, the kept
    /// lines before it and itself, and starts the count of lines to show after it; a line
    /// within that count is shown as it is. Every line is then kept, unless it is the hit
    /// that reaches the limit, which ends the search.
    pub fn feed(&mut self, line: &str) -> (out: Vec<String>)
        requires
            old(self).well_formed(),
            !old(self).model().done,
            old(self).model().lines < usize::MAX,
            old(self).model().count < usize::MAX,
        ensures
            final(self).well_formed(),
            ({
                let m = old(self).model();
                let f = final(self).model();
                let n = m.lines + 1;
                let hit = has_substring(line@, m.keyword);
                &&& f.keyword == m.keyword && f.before == m.before && f.after == m.after
                    && f.limit == m.limit
                &&& f.lines == n
                &&& string_views(out@) == if hit {
                    seq![match_header(m.count + 1)] + window_output(m.window) + seq![
                        marked_line(n, '>', line@),
                    ]
                } else if m.after_left > 0 {
                    seq![marked_line(n, '+', line@)]
                } else {
                    seq![]
                }
                &&& f.count == if hit {
                    m.count + 1
                } else {
                    m.count
                }
                &&& f.after_left == if hit {
                    m.after
                } else if m.after_left > 0 {
                    (m.after_left - 1) as nat
                } else {
                    0
                }
                &&& f.window == if f.done {
                    m.window
                } else {
                    slide(m.window, (n, line@), m.before)
                }
            }),
    {
        let ghost m = self.model();
        let line_number = self.lines + 1;
        self.lines = line_number;
        let cs = chars_of(line);
        let mut out: Vec<String> = Vec::new();
        if contains_chars(cs.as_slice(), self.keyword.as_slice()) {
            let mut head: Vec<char> = vec!['-', '-', '-', '-', '-', ' ', 'm', 'a', 't', 'c', 'h', ' '];
            push_decimal(&mut head, (self.count + 1) as u64);
            let tail = vec![' ', '-', '-', '-', '-', '-'];
            push_chars(&mut head, tail.as_slice());
            assert(head@ =~= match_header(m.count + 1));
            out.push(string_from_chars(head.as_slice()));
            let mut k: usize = 0;
            while k < self.window.len()
                invariant
                    k <= self.window@.len(),
                    window_model(self.window@) == m.window,
                    string_views(out@) == seq![match_header(m.count + 1)] + window_output(
                        m.window.take(k as int),
                    ),
                decreases self.window@.len() - k,
            {
                let (n, text) = &self.window[k];
                let mut v: Vec<char> = Vec::new();
                push_decimal(&mut v, *n as u64);
                v.push('-');
                v.push(' ');
                push_str(&mut v, text.as_str());
                let ghost before = string_views(out@);
                out.push(string_from_chars(v.as_slice()));
                proof {
                    assert(m.window[k as int] == (*n as nat, text@));
                    assert(v@ =~= marked_line(*n as nat, '-', text@));
                    assert(string_views(out@) =~= before.push(v@));
                    assert(m.window.take(k + 1) =~= m.window.take(k as int).push(
                        m.window[k as int],
                    ));
                    assert(window_output(m.window.take(k + 1)) =~= window_output(
                        m.window.take(k as int),
                    ).push(v@));
                }
                k = k + 1;
            }
            assert(m.window.take(m.window.len() as int) =~= m.window);
            let mut v: Vec<char> = Vec::new();
            push_decimal(&mut v, line_number as u64);
            v.push('>');
            v.push(' ');
            push_chars(&mut v, cs.as_slice());
            let ghost before = string_views(out@);
            out.push(string_from_chars(v.as_slice()));
            proof {
                assert(v@ =~= marked_line(line_number as nat, '>', line@));
                assert(string_views(out@) =~= before.push(v@));
            }
            self.after_left = self.after;
            self.count = self.count + 1;
            if self.limit > 0 && self.count >= self.limit {
                self.done = true;
                return out;
            }
        } else if self.after_left > 0 {
            let mut v: Vec<char> = Vec::new();
            push_decimal(&mut v, line_number as u64);
            v.push('+');
            v.push(' ');
            push_chars(&mut v, cs.as_slice());
            out.push(string_from_chars(v.as_slice()));
            proof {
                assert(v@ =~= marked_line(line_number as nat, '+', line@));
                assert(string_views(out@) =~= seq![v@]);
            }
            self.after_left = self.after_left - 1;
        } else {
            assert(string_views(out@) =~= Seq::<Seq<char>>::empty());
        }
        let ghost w0 = window_model(self.window@);
        self.window.push((line_number, line.to_owned()));
        assert(window_model(self.window@) =~= w0.push((line_number as nat, line@)));
        if self.window.len() > self.before {
            self.window.remove(0);
            assert(window_model(self.window@) =~= w0.push((line_number as nat, line@)).drop_first());
        }
        proof {
            let w = window_model(self.window@);
            assert forall|k: int| 0 <= k < w.len() implies (#[trigger] w[k]).0 == line_number
                - w.len() + 1 + k by {
                let w2 = w0.push((line_number as nat, line@));
                if w2.len() > m.before {
                    assert(w[k] == w2[k + 1]);
                } else {
                    assert(w[k] == w2[k]);
                }
            }
        }
        out
    }
}

} // verus!
