use vstd::prelude::*;
use crate::numeric::{
    dec_digits, is_digit, lemma_dec_digits_all_digits, lemma_dec_digits_val, parse_u128_str,
    parse_u64_str, spec_parse_dec, u128_to_dec, u64_to_dec,
};
use crate::state::{AccountInfo, AccountInfoV};

verus! {

// ---------------------------------------------------------------------------
// The stake ledger codec. Records are joined with `;`; within a record the
// four fields — staker, amount, window start, window end — are joined with
// `:`. The decoder splits and silently drops every piece that does not yield
// exactly four well-formed fields; in particular it tolerates the empty
// piece that a ledger built by appending to the empty string starts with.
// ---------------------------------------------------------------------------

/// Split `s` at every occurrence of `sep`. The result always has at least
/// one piece, and the pieces joined by `sep` give back `s`.
pub open spec fn spec_split(s: Seq<char>, sep: char) -> Seq<Seq<char>>
    decreases s.len(),
{
    if s.len() == 0 {
        seq![Seq::<char>::empty()]
    } else if s[0] == sep {
        seq![Seq::<char>::empty()] + spec_split(s.skip(1), sep)
    } else {
        let r = spec_split(s.skip(1), sep);
        seq![seq![s[0]] + r[0]] + r.skip(1)
    }
}

pub proof fn lemma_split_len(s: Seq<char>, sep: char)
    ensures
        spec_split(s, sep).len() >= 1,
    decreases s.len(),
{
    if s.len() == 0 {
    } else {
        lemma_split_len(s.skip(1), sep);
    }
}

/// A separator-free string splits into itself alone.
pub proof fn lemma_split_no_sep(s: Seq<char>, sep: char)
    requires
        forall|i: int| 0 <= i < s.len() ==> #[trigger] s[i] != sep,
    ensures
        spec_split(s, sep) == seq![s],
    decreases s.len(),
{
    if s.len() == 0 {
        assert(spec_split(s, sep) =~~= seq![s]);
    } else {
        assert(forall|i: int| 0 <= i < s.skip(1).len() ==> #[trigger] s.skip(1)[i] != sep) by {
            assert forall|i: int| 0 <= i < s.skip(1).len() implies #[trigger] s.skip(1)[i]
                != sep by {
                assert(s.skip(1)[i] == s[i + 1]);
            }
        }
        lemma_split_no_sep(s.skip(1), sep);
        let r = spec_split(s.skip(1), sep);
        assert(r[0] == s.skip(1));
        assert(seq![s[0]] + s.skip(1) =~= s);
        assert(r.skip(1) =~= Seq::<Seq<char>>::empty());
        assert(spec_split(s, sep) =~~= seq![s]);
    }
}

/// Splitting around one separator splits the two sides independently.
pub proof fn lemma_split_concat(a: Seq<char>, b: Seq<char>, sep: char)
    ensures
        spec_split(a + seq![sep] + b, sep) == spec_split(a, sep) + spec_split(b, sep),
    decreases a.len(),
{
    let s = a + seq![sep] + b;
    if a.len() == 0 {
        assert(s[0] == sep);
        assert(s.skip(1) =~= b);
        assert(spec_split(s, sep) == seq![Seq::<char>::empty()] + spec_split(b, sep));
        assert(spec_split(a, sep) =~= seq![Seq::<char>::empty()]);
    } else {
        assert(s[0] == a[0]);
        assert(s.len() > 0);
        assert(s.skip(1) =~= a.skip(1) + seq![sep] + b);
        lemma_split_concat(a.skip(1), b, sep);
        lemma_split_len(a.skip(1), sep);
        lemma_split_len(b, sep);
        let ra = spec_split(a.skip(1), sep);
        let r = spec_split(s.skip(1), sep);
        assert(r == ra + spec_split(b, sep));
        assert(r[0] == ra[0]);
        if a[0] == sep {
            assert(spec_split(s, sep) == seq![Seq::<char>::empty()] + r);
            assert(spec_split(a, sep) == seq![Seq::<char>::empty()] + ra);
            assert(seq![Seq::<char>::empty()] + (ra + spec_split(b, sep)) =~= (seq![
                Seq::<char>::empty(),
            ] + ra) + spec_split(b, sep));
        } else {
            assert(spec_split(s, sep) == seq![seq![s[0]] + r[0]] + r.skip(1));
            assert(spec_split(a, sep) == seq![seq![a[0]] + ra[0]] + ra.skip(1));
            assert(r.skip(1) =~= ra.skip(1) + spec_split(b, sep));
            assert(seq![seq![a[0]] + ra[0]] + (ra.skip(1) + spec_split(b, sep)) =~= (seq![
                seq![a[0]] + ra[0],
            ] + ra.skip(1)) + spec_split(b, sep));
        }
    }
}

// ---------------------------------------------------------------------------
// Record texts and their parse
// ---------------------------------------------------------------------------

/// A record can be carried by the ledger text faithfully only when its
/// staker identity avoids both separators.
pub open spec fn record_ok(r: AccountInfoV) -> bool {
    forall|i: int| 0 <= i < r.addr.len() ==> #[trigger] r.addr[i] != ';' && r.addr[i] != ':'
}

/// The text of one record: the four fields joined with `:`, the numeric
/// fields as canonical decimal numerals.
pub open spec fn record_text(r: AccountInfoV) -> Seq<char> {
    r.addr + seq![':'] + dec_digits(r.amount as nat) + seq![':'] + dec_digits(
        r.start_time as nat,
    ) + seq![':'] + dec_digits(r.end_time as nat)
}

/// What one piece of the ledger means: a record when it has exactly four
/// `:`-separated fields with well-formed numerals, nothing otherwise.
pub open spec fn spec_parse_record(p: Seq<char>) -> Option<AccountInfoV> {
    let fields = spec_split(p, ':');
    if fields.len() == 4 && spec_parse_dec(fields[1], u128::MAX as int) is Some && spec_parse_dec(
        fields[2],
        u64::MAX as int,
    ) is Some && spec_parse_dec(fields[3], u64::MAX as int) is Some {
        Some(
            AccountInfoV {
                addr: fields[0],
                amount: spec_parse_dec(fields[1], u128::MAX as int)->Some_0 as u128,
                start_time: spec_parse_dec(fields[2], u64::MAX as int)->Some_0 as u64,
                end_time: spec_parse_dec(fields[3], u64::MAX as int)->Some_0 as u64,
            },
        )
    } else {
        None
    }
}

/// The records a piece list yields, malformed pieces dropped.
pub open spec fn decode_pieces(ps: Seq<Seq<char>>) -> Seq<AccountInfoV>
    decreases ps.len(),
{
    if ps.len() == 0 {
        Seq::empty()
    } else {
        (match spec_parse_record(ps[0]) {
            Some(r) => seq![r],
            None => Seq::<AccountInfoV>::empty(),
        }) + decode_pieces(ps.skip(1))
    }
}

/// The records a whole ledger string holds.
pub open spec fn spec_decode(s: Seq<char>) -> Seq<AccountInfoV> {
    decode_pieces(spec_split(s, ';'))
}

/// One record appended to a ledger: always behind a fresh `;`, so a ledger
/// built from the empty string starts with an empty piece that the decoder
/// skips.
pub open spec fn spec_append(ledger: Seq<char>, r: AccountInfoV) -> Seq<char> {
    ledger + seq![';'] + record_text(r)
}

/// A whole record list encoded from the empty ledger.
pub open spec fn spec_encode(rs: Seq<AccountInfoV>) -> Seq<char>
    decreases rs.len(),
{
    if rs.len() == 0 {
        Seq::empty()
    } else {
        spec_append(spec_encode(rs.drop_last()), rs.last())
    }
}

pub proof fn lemma_decode_pieces_concat(p1: Seq<Seq<char>>, p2: Seq<Seq<char>>)
    ensures
        decode_pieces(p1 + p2) == decode_pieces(p1) + decode_pieces(p2),
    decreases p1.len(),
{
    if p1.len() == 0 {
        assert(p1 + p2 =~= p2);
        assert(decode_pieces(p1) + decode_pieces(p2) =~= decode_pieces(p2));
    } else {
        assert((p1 + p2)[0] == p1[0]);
        assert((p1 + p2).skip(1) =~= p1.skip(1) + p2);
        lemma_decode_pieces_concat(p1.skip(1), p2);
        assert(decode_pieces(p1 + p2) == (match spec_parse_record(p1[0]) {
            Some(r) => seq![r],
            None => Seq::<AccountInfoV>::empty(),
        }) + (decode_pieces(p1.skip(1)) + decode_pieces(p2)));
        assert((match spec_parse_record(p1[0]) {
            Some(r) => seq![r],
            None => Seq::<AccountInfoV>::empty(),
        }) + (decode_pieces(p1.skip(1)) + decode_pieces(p2)) =~= ((match spec_parse_record(
            p1[0],
        ) {
            Some(r) => seq![r],
            None => Seq::<AccountInfoV>::empty(),
        }) + decode_pieces(p1.skip(1))) + decode_pieces(p2));
    }
}

/// Digits and `:` are never `;`, so a record text never contains the record
/// separator; the staker identity is separator-free by assumption.
pub proof fn lemma_record_text_no_semi(r: AccountInfoV)
    requires
        record_ok(r),
    ensures
        forall|i: int| 0 <= i < record_text(r).len() ==> #[trigger] record_text(r)[i] != ';',
{
    let t = record_text(r);
    lemma_dec_digits_all_digits(r.amount as nat);
    lemma_dec_digits_all_digits(r.start_time as nat);
    lemma_dec_digits_all_digits(r.end_time as nat);
    let a = r.addr;
    let d1 = dec_digits(r.amount as nat);
    let d2 = dec_digits(r.start_time as nat);
    let d3 = dec_digits(r.end_time as nat);
    assert forall|i: int| 0 <= i < t.len() implies #[trigger] t[i] != ';' by {
        let n0 = a.len() as int;
        let n1 = n0 + 1 + d1.len() as int;
        let n2 = n1 + 1 + d2.len() as int;
        if i < n0 {
            assert(t[i] == a[i]);
        } else if i == n0 {
            assert(t[i] == ':');
        } else if i < n1 {
            assert(t[i] == d1[i - n0 - 1]);
            assert(is_digit(d1[i - n0 - 1]));
        } else if i == n1 {
            assert(t[i] == ':');
        } else if i < n2 {
            assert(t[i] == d2[i - n1 - 1]);
            assert(is_digit(d2[i - n1 - 1]));
        } else if i == n2 {
            assert(t[i] == ':');
        } else {
            assert(t[i] == d3[i - n2 - 1]);
            assert(is_digit(d3[i - n2 - 1]));
        }
    }
}

/// The text of a well-carried record parses back to the record itself.
pub proof fn lemma_parse_record_text(r: AccountInfoV)
    requires
        record_ok(r),
    ensures
        spec_parse_record(record_text(r)) == Some(r),
{
    let a = r.addr;
    let d1 = dec_digits(r.amount as nat);
    let d2 = dec_digits(r.start_time as nat);
    let d3 = dec_digits(r.end_time as nat);
    lemma_dec_digits_all_digits(r.amount as nat);
    lemma_dec_digits_all_digits(r.start_time as nat);
    lemma_dec_digits_all_digits(r.end_time as nat);
    let tail = d2 + seq![':'] + d3;
    assert(record_text(r) =~= a + seq![':'] + (d1 + seq![':'] + tail));
    lemma_split_concat(a, d1 + seq![':'] + tail, ':');
    lemma_split_no_sep(a, ':');
    lemma_split_concat(d1, tail, ':');
    assert(forall|i: int| 0 <= i < d1.len() ==> #[trigger] d1[i] != ':') by {
        assert forall|i: int| 0 <= i < d1.len() implies #[trigger] d1[i] != ':' by {
            assert(is_digit(d1[i]));
        }
    }
    lemma_split_no_sep(d1, ':');
    lemma_split_concat(d2, d3, ':');
    assert(forall|i: int| 0 <= i < d2.len() ==> #[trigger] d2[i] != ':') by {
        assert forall|i: int| 0 <= i < d2.len() implies #[trigger] d2[i] != ':' by {
            assert(is_digit(d2[i]));
        }
    }
    lemma_split_no_sep(d2, ':');
    assert(forall|i: int| 0 <= i < d3.len() ==> #[trigger] d3[i] != ':') by {
        assert forall|i: int| 0 <= i < d3.len() implies #[trigger] d3[i] != ':' by {
            assert(is_digit(d3[i]));
        }
    }
    lemma_split_no_sep(d3, ':');
    let fields = spec_split(record_text(r), ':');
    assert(fields =~= seq![a, d1, d2, d3]);
    lemma_dec_digits_val(r.amount as nat);
    lemma_dec_digits_val(r.start_time as nat);
    lemma_dec_digits_val(r.end_time as nat);
    assert(spec_parse_dec(d1, u128::MAX as int) == Some(r.amount as int));
    assert(spec_parse_dec(d2, u64::MAX as int) == Some(r.start_time as int));
    assert(spec_parse_dec(d3, u64::MAX as int) == Some(r.end_time as int));
}

/// Appending one well-carried record to any ledger appends exactly that
/// record to what the ledger decodes to.
pub proof fn lemma_decode_append(ledger: Seq<char>, r: AccountInfoV)
    requires
        record_ok(r),
    ensures
        spec_decode(spec_append(ledger, r)) == spec_decode(ledger) + seq![r],
{
    let t = record_text(r);
    lemma_split_concat(ledger, t, ';');
    lemma_record_text_no_semi(r);
    lemma_split_no_sep(t, ';');
    lemma_decode_pieces_concat(spec_split(ledger, ';'), spec_split(t, ';'));
    lemma_parse_record_text(r);
    assert(decode_pieces(seq![t]) == seq![r] + decode_pieces(seq![t].skip(1)));
    assert(seq![t].skip(1) =~= Seq::<Seq<char>>::empty());
    assert(decode_pieces(Seq::<Seq<char>>::empty()) == Seq::<AccountInfoV>::empty());
    assert(seq![r] + Seq::<AccountInfoV>::empty() =~= seq![r]);
}

/// Round trip: decoding an encoded record list gives back exactly the
/// records, the tolerated leading empty piece notwithstanding.
pub proof fn lemma_codec_round_trip(rs: Seq<AccountInfoV>)
    requires
        forall|i: int| 0 <= i < rs.len() ==> record_ok(#[trigger] rs[i]),
    ensures
        spec_decode(spec_encode(rs)) == rs,
    decreases rs.len(),
{
    if rs.len() == 0 {
        assert(spec_encode(rs) == Seq::<char>::empty());
        assert(spec_split(Seq::<char>::empty(), ';') == seq![Seq::<char>::empty()]);
        assert(spec_split(Seq::<char>::empty(), ':') == seq![Seq::<char>::empty()]);
        assert(spec_parse_record(Seq::<char>::empty()) is None);
        assert(decode_pieces(seq![Seq::<char>::empty()]) =~= decode_pieces(seq![
            Seq::<char>::empty(),
        ].skip(1)));
        assert(seq![Seq::<char>::empty()].skip(1) =~= Seq::<Seq<char>>::empty());
        assert(spec_decode(spec_encode(rs)) =~= rs);
    } else {
        lemma_codec_round_trip(rs.drop_last());
        lemma_decode_append(spec_encode(rs.drop_last()), rs.last());
        assert(spec_decode(spec_encode(rs)) == rs.drop_last() + seq![rs.last()]);
        assert(rs.drop_last() + seq![rs.last()] =~= rs);
    }
}

// ---------------------------------------------------------------------------
// Executable codec
// ---------------------------------------------------------------------------

/// Split a string at every occurrence of `sep`.
pub fn split_str(s: &str, sep: char) -> (r: Vec<String>)
    ensures
        r@.map_values(|p: String| p@) == spec_split(s@, sep),
{
    let len = s.unicode_len();
    let mut pieces: Vec<String> = Vec::new();
    let mut start: usize = 0;
    let mut i: usize = 0;
    proof {
        assert(s@.skip(0) =~= s@);
        assert(pieces@.map_values(|p: String| p@) =~= Seq::<Seq<char>>::empty());
        assert(Seq::<Seq<char>>::empty() + spec_split(s@, sep) =~= spec_split(s@, sep));
    }
    while i < len
        invariant
            len == s@.len(),
            0 <= start <= i <= len,
            forall|j: int| start <= j < i ==> #[trigger] s@[j] != sep,
            spec_split(s@, sep) == pieces@.map_values(|p: String| p@) + spec_split(
                s@.skip(start as int),
                sep,
            ),
        decreases len - i,
    {
        if s.get_char(i) == sep {
            let piece = s.substring_char(start, i);
            proof {
                assert(s@.skip(start as int) =~= s@.subrange(start as int, i as int) + seq![sep]
                    + s@.skip(i as int + 1));
                lemma_split_concat(s@.subrange(start as int, i as int), s@.skip(i as int + 1), sep);
                assert(forall|j: int|
                    0 <= j < s@.subrange(start as int, i as int).len() ==> #[trigger] s@.subrange(
                        start as int,
                        i as int,
                    )[j] != sep);
                lemma_split_no_sep(s@.subrange(start as int, i as int), sep);
            }
            pieces.push(piece.to_owned());
            proof {
                assert(pieces@.map_values(|p: String| p@) =~= pieces@.map_values(
                    |p: String| p@,
                ).drop_last().push(s@.subrange(start as int, i as int)));
                assert((pieces@.map_values(|p: String| p@).drop_last() + seq![
                    s@.subrange(start as int, i as int),
                ]) + spec_split(s@.skip(i as int + 1), sep) =~= pieces@.map_values(|p: String| p@)
                    + spec_split(s@.skip(i as int + 1), sep));
            }
            start = i + 1;
        }
        i += 1;
    }
    let last = s.substring_char(start, len);
    proof {
        assert(s@.subrange(start as int, len as int) =~= s@.skip(start as int));
        lemma_split_no_sep(s@.skip(start as int), sep);
    }
    pieces.push(last.to_owned());
    proof {
        assert(pieces@.map_values(|p: String| p@) =~= pieces@.map_values(
            |p: String| p@,
        ).drop_last().push(s@.skip(start as int)));
        assert(pieces@.map_values(|p: String| p@).drop_last() + seq![s@.skip(start as int)]
            =~= pieces@.map_values(|p: String| p@));
    }
    pieces
}

/// Parse one `;`-separated piece of the ledger.
pub fn parse_record(p: &str) -> (r: Option<AccountInfo>)
    ensures
        r matches Some(a) ==> spec_parse_record(p@) == Some(a@),
        r is None ==> spec_parse_record(p@) is None,
{
    let fields = split_str(p, ':');
    if fields.len() != 4 {
        return None;
    }
    let amount = match parse_u128_str(fields[1].as_str()) {
        Some(v) => v,
        None => {
            return None;
        },
    };
    let start_time = match parse_u64_str(fields[2].as_str()) {
        Some(v) => v,
        None => {
            return None;
        },
    };
    let end_time = match parse_u64_str(fields[3].as_str()) {
        Some(v) => v,
        None => {
            return None;
        },
    };
    let addr = fields[0].clone();
    Some(AccountInfo { addr, amount, start_time, end_time })
}

/// Decode a whole ledger string, silently dropping malformed pieces.
pub fn decode_ledger(s: &str) -> (r: Vec<AccountInfo>)
    ensures
        r@.map_values(|a: AccountInfo| a@) == spec_decode(s@),
{
    let pieces = split_str(s, ';');
    let ghost ps = pieces@.map_values(|p: String| p@);
    let mut out: Vec<AccountInfo> = Vec::new();
    let mut k: usize = 0;
    let n = pieces.len();
    proof {
        assert(ps.take(0) =~= Seq::<Seq<char>>::empty());
        assert(out@.map_values(|a: AccountInfo| a@) =~= decode_pieces(ps.take(0)));
    }
    while k < n
        invariant
            n == pieces.len(),
            0 <= k <= n,
            ps == pieces@.map_values(|p: String| p@),
            spec_decode(s@) == decode_pieces(ps),
            out@.map_values(|a: AccountInfo| a@) == decode_pieces(ps.take(k as int)),
        decreases n - k,
    {
        proof {
            assert(ps.take(k as int + 1) =~= ps.take(k as int).push(ps[k as int]));
            lemma_decode_pieces_snoc(ps.take(k as int), ps[k as int]);
        }
        match parse_record(pieces[k].as_str()) {
            Some(a) => {
                out.push(a);
                proof {
                    assert(out@.map_values(|a: AccountInfo| a@) =~= decode_pieces(ps.take(
                        k as int,
                    )) + seq![out@.last()@]);
                }
            },
            None => {
                proof {
                    assert(decode_pieces(ps.take(k as int)) + Seq::<AccountInfoV>::empty()
                        =~= decode_pieces(ps.take(k as int)));
                }
            },
        }
        k += 1;
    }
    proof {
        assert(ps.take(n as int) =~= ps);
    }
    out
}

proof fn lemma_decode_pieces_snoc(ps: Seq<Seq<char>>, p: Seq<char>)
    ensures
        decode_pieces(ps.push(p)) == decode_pieces(ps) + (match spec_parse_record(p) {
            Some(r) => seq![r],
            None => Seq::<AccountInfoV>::empty(),
        }),
{
    assert(ps.push(p) =~= ps + seq![p]);
    lemma_decode_pieces_concat(ps, seq![p]);
    assert(decode_pieces(seq![p]) == (match spec_parse_record(p) {
        Some(r) => seq![r],
        None => Seq::<AccountInfoV>::empty(),
    }) + decode_pieces(seq![p].skip(1)));
    assert(seq![p].skip(1) =~= Seq::<Seq<char>>::empty());
    assert((match spec_parse_record(p) {
        Some(r) => seq![r],
        None => Seq::<AccountInfoV>::empty(),
    }) + decode_pieces(Seq::<Seq<char>>::empty()) =~= (match spec_parse_record(p) {
        Some(r) => seq![r],
        None => Seq::<AccountInfoV>::empty(),
    }));
}

/// Append one record behind a fresh `;`, the numeric fields written as
/// canonical numerals.
pub fn append_record(
    ledger: &str,
    staker: &str,
    amount: u128,
    start_time: u64,
    end_time: u64,
) -> (r: String)
    ensures
        r@ == spec_append(
            ledger@,
            AccountInfoV { addr: staker@, amount, start_time, end_time },
        ),
{
    proof {
        reveal_strlit(";");
        reveal_strlit(":");
    }
    let mut s = ledger.to_owned();
    s.append(";");
    s.append(staker);
    s.append(":");
    let d1 = u128_to_dec(amount);
    s.append(d1.as_str());
    s.append(":");
    let d2 = u64_to_dec(start_time);
    s.append(d2.as_str());
    s.append(":");
    let d3 = u64_to_dec(end_time);
    s.append(d3.as_str());
    proof {
        assert(s@ =~= spec_append(
            ledger@,
            AccountInfoV { addr: staker@, amount, start_time, end_time },
        ));
    }
    s
}

/// Encode a whole record list from the empty ledger.
pub fn encode_records(records: &Vec<AccountInfo>) -> (r: String)
    ensures
        r@ == spec_encode(records@.map_values(|a: AccountInfo| a@)),
{
    let ghost rs = records@.map_values(|a: AccountInfo| a@);
    let mut s = String::new();
    let mut k: usize = 0;
    let n = records.len();
    proof {
        assert(rs.take(0) =~= Seq::<AccountInfoV>::empty());
    }
    while k < n
        invariant
            n == records.len(),
            0 <= k <= n,
            rs == records@.map_values(|a: AccountInfo| a@),
            s@ == spec_encode(rs.take(k as int)),
        decreases n - k,
    {
        let rec = &records[k];
        s = append_record(
            s.as_str(),
            rec.addr.as_str(),
            rec.amount,
            rec.start_time,
            rec.end_time,
        );
        proof {
            assert(rs.take(k as int + 1).drop_last() =~= rs.take(k as int));
            assert(rs.take(k as int + 1).last() == rs[k as int]);
            assert(spec_encode(rs.take(k as int + 1)) == spec_append(
                spec_encode(rs.take(k as int)),
                rs[k as int],
            ));
        }
        k += 1;
    }
    proof {
        assert(rs.take(n as int) =~= rs);
    }
    s
}

} // verus!
