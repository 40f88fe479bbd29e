//! Change export: the edits rendered as an OSM-compatible `osmChange`
//! document, and as plain change data for other serializations. Everything
//! here is exact string assembly over the log and the derived store.

use vstd::prelude::*;
use crate::store::{NodeView, WayView, Speedwalk};
use crate::edits::ConsequenceView;
use crate::idmap::{IdMap, id_find, id_has};

verus! {

/// Relies on std's String::push: appends the character to the string.
pub assume_specification [ String::push ](s: &mut String, c: char)
    ensures
        final(s)@ == old(s)@.push(c),
;

/// What one character becomes in an XML attribute value.
pub open spec fn esc_char(c: char) -> Seq<char> {
    if c == '"' {
        "&quot;"@
    } else if c == '<' {
        "&lt;"@
    } else if c == '>' {
        "&gt;"@
    } else if c == '&' {
        "&amp;"@
    } else if c == '\'' {
        "&apos;"@
    } else {
        seq![c]
    }
}

/// A whole value escaped, character for character.
pub open spec fn esc_str(s: Seq<char>) -> Seq<char>
    decreases s.len(),
{
    if s.len() == 0 {
        Seq::empty()
    } else {
        esc_str(s.drop_last()) + esc_char(s.last())
    }
}

/// Escape an XML attribute value: the five reserved characters become their
/// entities, all in one pass.
pub fn escape(v: &str) -> (r: String)
    ensures
        r@ == esc_str(v@),
{
    let n = v.unicode_len();
    let mut r = String::new();
    let mut i: usize = 0;
    proof {
        assert(v@.subrange(0, 0) =~= Seq::<char>::empty());
        assert(r@ =~= esc_str(v@.subrange(0, 0)));
    }
    while i < n
        invariant
            n == v@.len(),
            i <= n,
            r@ == esc_str(v@.subrange(0, i as int)),
        decreases n - i,
    {
        proof {
            let cur = v@.subrange(0, i as int + 1);
            assert(cur.drop_last() =~= v@.subrange(0, i as int));
            assert(cur.last() == v@[i as int]);
        }
        let c = v.get_char(i);
        if c == '"' {
            r.append("&quot;");
        } else if c == '<' {
            r.append("&lt;");
        } else if c == '>' {
            r.append("&gt;");
        } else if c == '&' {
            r.append("&amp;");
        } else if c == '\'' {
            r.append("&apos;");
        } else {
            r.push(c);
            proof {
                assert(r@ =~= esc_str(v@.subrange(0, i as int)) + seq![c]);
            }
        }
        i += 1;
    }
    proof {
        assert(v@.subrange(0, n as int) =~= v@);
    }
    r
}

/// The decimal digit character for a value below ten.
pub open spec fn spec_digit(n: nat) -> char {
    if n == 0 {
        '0'
    } else if n == 1 {
        '1'
    } else if n == 2 {
        '2'
    } else if n == 3 {
        '3'
    } else if n == 4 {
        '4'
    } else if n == 5 {
        '5'
    } else if n == 6 {
        '6'
    } else if n == 7 {
        '7'
    } else if n == 8 {
        '8'
    } else {
        '9'
    }
}

/// The decimal digits of a natural number, most significant first.
pub open spec fn dec_u(n: nat) -> Seq<char>
    decreases n,
{
    if n < 10 {
        seq![spec_digit(n)]
    } else {
        dec_u(n / 10).push(spec_digit(n % 10))
    }
}

/// A signed decimal rendering.
pub open spec fn dec_i(n: int) -> Seq<char> {
    if n < 0 {
        seq!['-'] + dec_u((-n) as nat)
    } else {
        dec_u(n as nat)
    }
}

fn digit_char(n: u64) -> (c: char)
    requires
        n < 10,
    ensures
        c == spec_digit(n as nat),
{
    if n == 0 {
        '0'
    } else if n == 1 {
        '1'
    } else if n == 2 {
        '2'
    } else if n == 3 {
        '3'
    } else if n == 4 {
        '4'
    } else if n == 5 {
        '5'
    } else if n == 6 {
        '6'
    } else if n == 7 {
        '7'
    } else if n == 8 {
        '8'
    } else {
        '9'
    }
}

/// Append the decimal rendering of a natural number.
pub fn push_u64(out: &mut String, n: u64)
    ensures
        final(out)@ == old(out)@ + dec_u(n as nat),
{
    let mut digits: Vec<char> = Vec::new();
    let mut m: u64 = n;
    while m >= 10
        invariant
            dec_u(n as nat) == dec_u(m as nat) + digits@.reverse(),
        decreases m,
    {
        let d = digit_char(m % 10);
        proof {
            assert(dec_u(m as nat) == dec_u((m as nat) / 10).push(spec_digit((m as nat) % 10)));
            assert(digits@.push(d).reverse() =~= seq![d] + digits@.reverse());
            assert(dec_u((m as nat) / 10) + (seq![d] + digits@.reverse()) =~= (dec_u(
                (m as nat) / 10,
            ).push(d)) + digits@.reverse());
            assert((m / 10) as nat == (m as nat) / 10);
            assert((m % 10) as nat == (m as nat) % 10);
        }
        digits.push(d);
        m = m / 10;
    }
    let d0 = digit_char(m);
    out.push(d0);
    let ghost base = old(out)@;
    proof {
        assert(out@ =~= base + seq![d0]);
        assert(dec_u(n as nat) =~= seq![d0] + digits@.reverse());
    }
    let count = digits.len();
    let mut i: usize = 0;
    while i < count
        invariant
            count == digits@.len(),
            i <= count,
            out@ == base + seq![d0] + digits@.reverse().subrange(0, i as int),
        decreases count - i,
    {
        proof {
            assert(digits@.reverse()[i as int] == digits@[count - 1 - i as int]);
            assert(digits@.reverse().subrange(0, i as int).push(digits@.reverse()[i as int])
                =~= digits@.reverse().subrange(0, i as int + 1));
        }
        out.push(digits[count - 1 - i]);
        proof {
            assert(out@ =~= base + seq![d0] + digits@.reverse().subrange(0, i as int + 1));
        }
        i += 1;
    }
    proof {
        assert(digits@.reverse().subrange(0, count as int) =~= digits@.reverse());
        assert(out@ =~= base + (seq![d0] + digits@.reverse()));
    }
}

/// Append the decimal rendering of a signed number.
pub fn push_i64(out: &mut String, n: i64)
    ensures
        final(out)@ == old(out)@ + dec_i(n as int),
{
    if n < 0 {
        out.push('-');
        let m: u64 = ((-(n as i128)) as u64);
        let ghost mid = out@;
        proof {
            assert(mid =~= old(out)@ + seq!['-']);
        }
        push_u64(out, m);
        proof {
            assert(out@ =~= old(out)@ + (seq!['-'] + dec_u(m as nat)));
        }
    } else {
        push_u64(out, n as u64);
    }
}

/// Fixed-width decimal digits, zero padded on the left.
pub open spec fn dec_pad(n: nat, width: nat) -> Seq<char>
    decreases width,
{
    if width == 0 {
        Seq::empty()
    } else {
        dec_pad(n / 10, (width - 1) as nat).push(spec_digit(n % 10))
    }
}

/// A geographic coordinate in ten-millionths of a degree, rendered as a
/// signed decimal with seven fractional digits.
pub open spec fn coord_str(v: int) -> Seq<char> {
    let a = if v < 0 {
        (-v) as nat
    } else {
        v as nat
    };
    (if v < 0 {
        seq!['-']
    } else {
        Seq::<char>::empty()
    }) + dec_u(a / 10000000) + seq!['.'] + dec_pad(a % 10000000, 7)
}

/// Append a coordinate rendering.
pub fn push_coord(out: &mut String, v: i64)
    ensures
        final(out)@ == old(out)@ + coord_str(v as int),
{
    let a: u64 = if v < 0 {
        (-(v as i128)) as u64
    } else {
        v as u64
    };
    let ghost base = old(out)@;
    if v < 0 {
        out.push('-');
        proof {
            assert(out@ =~= base + seq!['-']);
        }
    }
    let ghost signed = out@;
    push_u64(out, a / 10000000);
    out.push('.');
    let ghost mid = out@;
    proof {
        assert(mid =~= signed + dec_u((a as nat) / 10000000) + seq!['.']);
    }
    let mut rem: u64 = a % 10000000;
    let mut w: usize = 7;
    let mut digits: Vec<char> = Vec::new();
    while w > 0
        invariant
            w <= 7,
            rem < 10000000,
            dec_pad((a as nat) % 10000000, 7) == dec_pad(rem as nat, w as nat) + digits@.reverse(),
        decreases w,
    {
        let d = digit_char(rem % 10);
        proof {
            assert(dec_pad(rem as nat, w as nat) == dec_pad(
                (rem as nat) / 10,
                (w - 1) as nat,
            ).push(spec_digit((rem as nat) % 10)));
            assert(digits@.push(d).reverse() =~= seq![d] + digits@.reverse());
            assert(dec_pad((rem as nat) / 10, (w - 1) as nat) + (seq![d] + digits@.reverse())
                =~= dec_pad((rem as nat) / 10, (w - 1) as nat).push(d) + digits@.reverse());
        }
        digits.push(d);
        rem = rem / 10;
        w = w - 1;
    }
    proof {
        assert(dec_pad(rem as nat, 0) =~= Seq::<char>::empty());
        assert(dec_pad((a as nat) % 10000000, 7) =~= digits@.reverse());
    }
    let count = digits.len();
    let mut i: usize = 0;
    while i < count
        invariant
            count == digits@.len(),
            i <= count,
            out@ == mid + digits@.reverse().subrange(0, i as int),
        decreases count - i,
    {
        proof {
            assert(digits@.reverse()[i as int] == digits@[count - 1 - i as int]);
            assert(digits@.reverse().subrange(0, i as int).push(digits@.reverse()[i as int])
                =~= digits@.reverse().subrange(0, i as int + 1));
        }
        out.push(digits[count - 1 - i]);
        proof {
            assert(out@ =~= mid + digits@.reverse().subrange(0, i as int + 1));
        }
        i += 1;
    }
    proof {
        assert(digits@.reverse().subrange(0, count as int) =~= digits@.reverse());
        assert(out@ =~= base + coord_str(v as int));
    }
}

/// The sorted union of the keys of two maps.
pub fn union_keys<V1: View, V2: View>(x1: &IdMap<V1>, x2: &IdMap<V2>) -> (r: Vec<i64>)
    ensures
        crate::network::sorted_ids(r@),
        forall|y: i64| #[trigger] r@.contains(y) <==> (id_has(x1@, y) || id_has(x2@, y)),
{
    let mut r: Vec<i64> = Vec::new();
    let n1 = x1.len();
    let mut i: usize = 0;
    proof {
        assert(forall|y: i64| !(#[trigger] r@.contains(y)));
    }
    while i < n1
        invariant
            n1 == x1@.len(),
            i <= n1,
            crate::network::sorted_ids(r@),
            forall|y: i64| #[trigger] r@.contains(y) <==> exists|j: int|
                0 <= j < i && (#[trigger] x1@[j]).0 == y,
        decreases n1 - i,
    {
        let k = x1.key_at(i);
        crate::network::insert_sorted_unique(&mut r, k);
        proof {
            assert forall|y: i64| #[trigger] r@.contains(y) implies (exists|j: int|
                0 <= j < i + 1 && (#[trigger] x1@[j]).0 == y) by {
                if y != k {
                    let j = choose|j: int| 0 <= j < i && (#[trigger] x1@[j]).0 == y;
                    assert(x1@[j].0 == y);
                } else {
                    assert(x1@[i as int].0 == y);
                }
            }
        }
        i += 1;
    }
    let n2 = x2.len();
    let mut i: usize = 0;
    while i < n2
        invariant
            n2 == x2@.len(),
            i <= n2,
            crate::network::sorted_ids(r@),
            forall|y: i64| #[trigger] r@.contains(y) <==> ((exists|j: int|
                0 <= j < x1@.len() && (#[trigger] x1@[j]).0 == y) || (exists|j: int|
                0 <= j < i && (#[trigger] x2@[j]).0 == y)),
        decreases n2 - i,
    {
        let k = x2.key_at(i);
        crate::network::insert_sorted_unique(&mut r, k);
        proof {
            assert forall|y: i64| #[trigger] r@.contains(y) implies ((exists|j: int|
                0 <= j < x1@.len() && (#[trigger] x1@[j]).0 == y) || (exists|j: int|
                0 <= j < i + 1 && (#[trigger] x2@[j]).0 == y)) by {
                if y == k {
                    assert(x2@[i as int].0 == y);
                }
            }
        }
        i += 1;
    }
    proof {
        assert forall|y: i64| #[trigger] r@.contains(y) implies (id_has(x1@, y) || id_has(
            x2@,
            y,
        )) by {
            if exists|j: int| 0 <= j < x1@.len() && (#[trigger] x1@[j]).0 == y {
                let j = choose|j: int| 0 <= j < x1@.len() && (#[trigger] x1@[j]).0 == y;
                lemma_id_has_at(x1@, j);
            } else {
                let j = choose|j: int| 0 <= j < x2@.len() && (#[trigger] x2@[j]).0 == y;
                lemma_id_has_at(x2@, j);
            }
        }
        assert forall|y: i64| (id_has(x1@, y) || id_has(x2@, y)) implies #[trigger] r@.contains(
            y,
        ) by {
            if id_has(x1@, y) {
                crate::edits::lemma_id_find_pos(x1@, y);
                let j = choose|j: int|
                    0 <= j < x1@.len() && x1@[j].0 == y && x1@[j].1 == id_find(x1@, y).unwrap();
                assert(x1@[j].0 == y);
            } else {
                crate::edits::lemma_id_find_pos(x2@, y);
                let j = choose|j: int|
                    0 <= j < x2@.len() && x2@[j].0 == y && x2@[j].1 == id_find(x2@, y).unwrap();
                assert(x2@[j].0 == y);
            }
        }
    }
    r
}

/// The key at any position is found.
proof fn lemma_id_has_at<T>(s: Seq<(i64, T)>, i: int)
    requires
        0 <= i < s.len(),
    ensures
        id_has(s, s[i].0),
    decreases s.len(),
{
    if i > 0 {
        if s[0].0 != s[i].0 {
            lemma_id_has_at(s.drop_first(), i - 1);
            assert(s.drop_first()[i - 1] == s[i]);
        }
    }
}

/// One tag rendered as an XML line; the value is escaped.
pub open spec fn tag_line(k: Seq<char>, v: Seq<char>) -> Seq<char> {
    "      <tag k=\""@ + k + "\" v=\""@ + esc_str(v) + "\" />\n"@
}

pub open spec fn tag_lines(t: Seq<(Seq<char>, Seq<char>)>) -> Seq<char>
    decreases t.len(),
{
    if t.len() == 0 {
        Seq::empty()
    } else {
        tag_lines(t.drop_last()) + tag_line(t.last().0, t.last().1)
    }
}

pub open spec fn nd_line(id: i64) -> Seq<char> {
    "      <nd ref=\""@ + dec_i(id as int) + "\" />\n"@
}

pub open spec fn nd_lines(ids: Seq<i64>) -> Seq<char>
    decreases ids.len(),
{
    if ids.len() == 0 {
        Seq::empty()
    } else {
        nd_lines(ids.drop_last()) + nd_line(ids.last())
    }
}

/// A created node rendered as a create block entry.
pub open spec fn node_block(id: i64, nd: NodeView) -> Seq<char> {
    "    <node id=\""@ + dec_i(id as int) + "\" version=\""@ + dec_i(nd.version as int)
        + "\" lon=\""@ + coord_str(nd.lon as int) + "\" lat=\""@ + coord_str(nd.lat as int)
        + "\">\n"@ + tag_lines(nd.tags) + "    </node>\n"@
}

/// A way rendered with its node references and tags.
pub open spec fn way_block(
    id: i64,
    version: int,
    ids: Seq<i64>,
    tags: Seq<(Seq<char>, Seq<char>)>,
) -> Seq<char> {
    "    <way id=\""@ + dec_i(id as int) + "\" version=\""@ + dec_i(version) + "\">\n"@
        + nd_lines(ids) + tag_lines(tags) + "    </way>\n"@
}

pub open spec fn create_node_blocks(cs: Seq<ConsequenceView>) -> Seq<char>
    decreases cs.len(),
{
    if cs.len() == 0 {
        Seq::empty()
    } else {
        create_node_blocks(cs.drop_last()) + conseq_node_blocks(cs.last().new_nodes)
    }
}

pub open spec fn conseq_node_blocks(ns: Seq<(i64, NodeView)>) -> Seq<char>
    decreases ns.len(),
{
    if ns.len() == 0 {
        Seq::empty()
    } else {
        conseq_node_blocks(ns.drop_last()) + node_block(ns.last().0, ns.last().1)
    }
}

pub open spec fn create_way_blocks(cs: Seq<ConsequenceView>) -> Seq<char>
    decreases cs.len(),
{
    if cs.len() == 0 {
        Seq::empty()
    } else {
        create_way_blocks(cs.drop_last()) + conseq_way_blocks(cs.last().new_ways)
    }
}

pub open spec fn conseq_way_blocks(ws: Seq<(i64, WayView)>) -> Seq<char>
    decreases ws.len(),
{
    if ws.len() == 0 {
        Seq::empty()
    } else {
        conseq_way_blocks(ws.drop_last()) + way_block(
            ws.last().0,
            ws.last().1.version as int,
            ws.last().1.node_ids,
            ws.last().1.tags,
        )
    }
}

/// Sorted insertion of an identifier, keeping the list duplicate free.
pub open spec fn ins_id(s: Seq<i64>, x: i64) -> Seq<i64>
    decreases s.len(),
{
    if s.len() == 0 {
        seq![x]
    } else if s[0] == x {
        s
    } else if x < s[0] {
        seq![x] + s
    } else {
        seq![s[0]] + ins_id(s.drop_first(), x)
    }
}

/// The ways the log's consequences touch, sorted.
pub open spec fn touched_ways(cs: Seq<ConsequenceView>) -> Seq<i64>
    decreases cs.len(),
{
    if cs.len() == 0 {
        Seq::empty()
    } else {
        let p = touched_ways(cs.drop_last());
        ins_all(ins_all_tc(p, cs.last().tag_changes), cs.last().node_replacements)
    }
}

pub open spec fn ins_all_tc(s: Seq<i64>, tcs: Seq<(i64, Seq<crate::edits::TagCmdView>)>) -> Seq<
    i64,
>
    decreases tcs.len(),
{
    if tcs.len() == 0 {
        s
    } else {
        ins_id(ins_all_tc(s, tcs.drop_last()), tcs.last().0)
    }
}

pub open spec fn ins_all(s: Seq<i64>, nrs: Seq<(i64, Seq<i64>)>) -> Seq<i64>
    decreases nrs.len(),
{
    if nrs.len() == 0 {
        s
    } else {
        ins_id(ins_all(s, nrs.drop_last()), nrs.last().0)
    }
}

/// The modify blocks: each touched way, as it stands in the derived store.
pub open spec fn modify_blocks(ways: Seq<(i64, WayView)>, touched: Seq<i64>) -> Seq<char>
    decreases touched.len(),
{
    if touched.len() == 0 {
        Seq::empty()
    } else {
        modify_blocks(ways, touched.drop_last()) + match id_find(ways, touched.last()) {
            Some(w) => way_block(touched.last(), w.version as int, w.node_ids, w.tags),
            None => Seq::empty(),
        }
    }
}

/// The whole osmChange document for a log and derived store.
pub open spec fn osc_document(cs: Seq<ConsequenceView>, ways: Seq<(i64, WayView)>) -> Seq<char> {
    "<osmChange version=\"0.6\" generator=\"speedwalk\">\n  <create>\n"@ + create_node_blocks(
        cs,
    ) + create_way_blocks(cs) + "  </create>\n  <modify>\n"@ + modify_blocks(
        ways,
        touched_ways(cs),
    ) + "  </modify>\n</osmChange>\n"@
}

/// Append each tag line of a tag set.
fn push_tag_lines(out: &mut String, tags: &crate::tags::Tags)
    ensures
        final(out)@ == old(out)@ + tag_lines(tags@),
{
    let ghost base = out@;
    let n = tags.len();
    let mut i: usize = 0;
    proof {
        assert(tags@.subrange(0, 0) =~= Seq::<(Seq<char>, Seq<char>)>::empty());
        assert(out@ =~= base + tag_lines(tags@.subrange(0, 0)));
    }
    while i < n
        invariant
            n == tags@.len(),
            i <= n,
            out@ == base + tag_lines(tags@.subrange(0, i as int)),
        decreases n - i,
    {
        proof {
            let cur = tags@.subrange(0, i as int + 1);
            assert(cur.drop_last() =~= tags@.subrange(0, i as int));
            assert(cur.last() == tags@[i as int]);
        }
        out.append("      <tag k=\"");
        out.append(tags.key_at(i).as_str());
        out.append("\" v=\"");
        let esc = escape(tags.value_at(i).as_str());
        out.append(esc.as_str());
        out.append("\" />\n");
        proof {
            assert(out@ =~= base + tag_lines(tags@.subrange(0, i as int)) + tag_line(
                tags@[i as int].0,
                tags@[i as int].1,
            ));
            assert(out@ =~= base + tag_lines(tags@.subrange(0, i as int + 1)));
        }
        i += 1;
    }
    proof {
        assert(tags@.subrange(0, n as int) =~= tags@);
    }
}

/// Append each node reference line of a way.
fn push_nd_lines(out: &mut String, ids: &Vec<i64>)
    ensures
        final(out)@ == old(out)@ + nd_lines(ids@),
{
    let ghost base = out@;
    let n = ids.len();
    let mut i: usize = 0;
    proof {
        assert(ids@.subrange(0, 0) =~= Seq::<i64>::empty());
        assert(out@ =~= base + nd_lines(ids@.subrange(0, 0)));
    }
    while i < n
        invariant
            n == ids@.len(),
            i <= n,
            out@ == base + nd_lines(ids@.subrange(0, i as int)),
        decreases n - i,
    {
        proof {
            let cur = ids@.subrange(0, i as int + 1);
            assert(cur.drop_last() =~= ids@.subrange(0, i as int));
            assert(cur.last() == ids@[i as int]);
        }
        out.append("      <nd ref=\"");
        push_i64(out, ids[i]);
        out.append("\" />\n");
        proof {
            assert(out@ =~= base + nd_lines(ids@.subrange(0, i as int)) + nd_line(
                ids@[i as int],
            ));
            assert(out@ =~= base + nd_lines(ids@.subrange(0, i as int + 1)));
        }
        i += 1;
    }
    proof {
        assert(ids@.subrange(0, n as int) =~= ids@);
    }
}

/// Append one way block.
fn push_way_block(out: &mut String, id: i64, version: i32, ids: &Vec<i64>, tags: &crate::tags::Tags)
    ensures
        final(out)@ == old(out)@ + way_block(id, version as int, ids@, tags@),
{
    let ghost base = out@;
    out.append("    <way id=\"");
    push_i64(out, id);
    out.append("\" version=\"");
    push_i64(out, version as i64);
    out.append("\">\n");
    push_nd_lines(out, ids);
    push_tag_lines(out, tags);
    out.append("    </way>\n");
    proof {
        assert(out@ =~= base + way_block(id, version as int, ids@, tags@));
    }
}

impl Speedwalk {
    /// The edits as an osmChange document: every created node and way in a
    /// create block, every touched way in a modify block, exactly as
    /// `osc_document` lays it out.
    pub fn to_osc(&self) -> (r: String)
        ensures
            r@ == osc_document(self.edits.spec_consequences(), self.derived_ways@),
    {
        let ghost cs = self.edits.spec_consequences();
        let mut out = String::new();
        out.append("<osmChange version=\"0.6\" generator=\"speedwalk\">\n  <create>\n");
        let ghost head = out@;

        let n_cs = self.edits.consequences.len();
        let mut ci: usize = 0;
        proof {
            assert(cs.subrange(0, 0) =~= Seq::<ConsequenceView>::empty());
            assert(out@ =~= head + create_node_blocks(cs.subrange(0, 0)));
        }
        while ci < n_cs
            invariant
                n_cs == cs.len(),
                cs == self.edits.spec_consequences(),
                ci <= n_cs,
                out@ == head + create_node_blocks(cs.subrange(0, ci as int)),
            decreases n_cs - ci,
        {
            proof {
                let cur = cs.subrange(0, ci as int + 1);
                assert(cur.drop_last() =~= cs.subrange(0, ci as int));
                assert(cur.last() == cs[ci as int]);
            }
            let ghost nb = cs[ci as int].new_nodes;
            let n_n = self.edits.consequences[ci].new_nodes.len();
            let mut k: usize = 0;
            proof {
                assert(nb.subrange(0, 0) =~= Seq::<(i64, NodeView)>::empty());
            }
            while k < n_n
                invariant
                    ci < cs.len(),
                    cs == self.edits.spec_consequences(),
                    nb == cs[ci as int].new_nodes,
                    n_n == nb.len(),
                    k <= n_n,
                    out@ == head + create_node_blocks(cs.subrange(0, ci as int))
                        + conseq_node_blocks(nb.subrange(0, k as int)),
                decreases n_n - k,
            {
                proof {
                    let cur = nb.subrange(0, k as int + 1);
                    assert(cur.drop_last() =~= nb.subrange(0, k as int));
                    assert(cur.last() == nb[k as int]);
                    assert(nb[k as int] == (
                        self.edits.consequences@[ci as int].new_nodes@[k as int].0,
                        self.edits.consequences@[ci as int].new_nodes@[k as int].1@,
                    ));
                }
                let ghost pre = out@;
                let e = &self.edits.consequences[ci].new_nodes[k];
                out.append("    <node id=\"");
                push_i64(&mut out, e.0);
                out.append("\" version=\"");
                push_i64(&mut out, e.1.version as i64);
                out.append("\" lon=\"");
                push_coord(&mut out, e.1.lon);
                out.append("\" lat=\"");
                push_coord(&mut out, e.1.lat);
                out.append("\">\n");
                push_tag_lines(&mut out, &e.1.tags);
                out.append("    </node>\n");
                proof {
                    assert(out@ =~= pre + node_block(nb[k as int].0, nb[k as int].1));
                    assert(out@ =~= head + create_node_blocks(cs.subrange(0, ci as int))
                        + conseq_node_blocks(nb.subrange(0, k as int + 1)));
                }
                k += 1;
            }
            proof {
                assert(nb.subrange(0, n_n as int) =~= nb);
            }
            ci += 1;
        }
        proof {
            assert(cs.subrange(0, n_cs as int) =~= cs);
        }
        let ghost after_nodes = out@;

        let mut ci: usize = 0;
        proof {
            assert(out@ =~= after_nodes + create_way_blocks(cs.subrange(0, 0)));
        }
        while ci < n_cs
            invariant
                n_cs == cs.len(),
                cs == self.edits.spec_consequences(),
                ci <= n_cs,
                out@ == after_nodes + create_way_blocks(cs.subrange(0, ci as int)),
            decreases n_cs - ci,
        {
            proof {
                let cur = cs.subrange(0, ci as int + 1);
                assert(cur.drop_last() =~= cs.subrange(0, ci as int));
                assert(cur.last() == cs[ci as int]);
            }
            let ghost wb = cs[ci as int].new_ways;
            let n_w = self.edits.consequences[ci].new_ways.len();
            let mut k: usize = 0;
            proof {
                assert(wb.subrange(0, 0) =~= Seq::<(i64, WayView)>::empty());
            }
            while k < n_w
                invariant
                    ci < cs.len(),
                    cs == self.edits.spec_consequences(),
                    wb == cs[ci as int].new_ways,
                    n_w == wb.len(),
                    k <= n_w,
                    out@ == after_nodes + create_way_blocks(cs.subrange(0, ci as int))
                        + conseq_way_blocks(wb.subrange(0, k as int)),
                decreases n_w - k,
            {
                proof {
                    let cur = wb.subrange(0, k as int + 1);
                    assert(cur.drop_last() =~= wb.subrange(0, k as int));
                    assert(cur.last() == wb[k as int]);
                    assert(wb[k as int] == (
                        self.edits.consequences@[ci as int].new_ways@[k as int].0,
                        self.edits.consequences@[ci as int].new_ways@[k as int].1@,
                    ));
                }
                let ghost pre = out@;
                let e = &self.edits.consequences[ci].new_ways[k];
                push_way_block(&mut out, e.0, e.1.version, &e.1.node_ids, &e.1.tags);
                proof {
                    assert(out@ =~= after_nodes + create_way_blocks(cs.subrange(0, ci as int))
                        + conseq_way_blocks(wb.subrange(0, k as int + 1)));
                }
                k += 1;
            }
            proof {
                assert(wb.subrange(0, n_w as int) =~= wb);
            }
            ci += 1;
        }
        proof {
            assert(cs.subrange(0, n_cs as int) =~= cs);
        }
        out.append("  </create>\n  <modify>\n");
        let ghost mid = out@;

        let touched = self.touched_ways_exec();
        let ghost tv = touched_ways(cs);
        proof {
            assert(touched@ == tv);
        }
        let n_t = touched.len();
        let mut i: usize = 0;
        proof {
            assert(tv.subrange(0, 0) =~= Seq::<i64>::empty());
            assert(out@ =~= mid + modify_blocks(self.derived_ways@, tv.subrange(0, 0)));
        }
        while i < n_t
            invariant
                n_t == tv.len(),
                touched@ == tv,
                i <= n_t,
                out@ == mid + modify_blocks(self.derived_ways@, tv.subrange(0, i as int)),
            decreases n_t - i,
        {
            proof {
                let cur = tv.subrange(0, i as int + 1);
                assert(cur.drop_last() =~= tv.subrange(0, i as int));
                assert(cur.last() == tv[i as int]);
            }
            let found = self.derived_ways.get(touched[i]);
            match found {
                Some(w) => {
                    push_way_block(&mut out, touched[i], w.version, &w.node_ids, &w.tags);
                },
                None => {},
            }
            proof {
                assert(out@ =~= mid + modify_blocks(self.derived_ways@, tv.subrange(0, i as int + 1)));
            }
            i += 1;
        }
        proof {
            assert(tv.subrange(0, n_t as int) =~= tv);
        }
        out.append("  </modify>\n</osmChange>\n");
        proof {
            assert(out@ =~= osc_document(cs, self.derived_ways@));
        }
        out
    }

    /// The sorted list of ways the log touches.
    fn touched_ways_exec(&self) -> (r: Vec<i64>)
        ensures
            r@ == touched_ways(self.edits.spec_consequences()),
    {
        let ghost cs = self.edits.spec_consequences();
        let mut r: Vec<i64> = Vec::new();
        let n_cs = self.edits.consequences.len();
        let mut ci: usize = 0;
        proof {
            assert(cs.subrange(0, 0) =~= Seq::<ConsequenceView>::empty());
            assert(r@ =~= touched_ways(cs.subrange(0, 0)));
        }
        while ci < n_cs
            invariant
                n_cs == cs.len(),
                cs == self.edits.spec_consequences(),
                ci <= n_cs,
                r@ == touched_ways(cs.subrange(0, ci as int)),
            decreases n_cs - ci,
        {
            proof {
                let cur = cs.subrange(0, ci as int + 1);
                assert(cur.drop_last() =~= cs.subrange(0, ci as int));
                assert(cur.last() == cs[ci as int]);
            }
            let ghost tcs = cs[ci as int].tag_changes;
            let n_tc = self.edits.consequences[ci].tag_changes.len();
            let mut k: usize = 0;
            proof {
                assert(tcs.subrange(0, 0) =~= Seq::<(i64, Seq<crate::edits::TagCmdView>)>::empty());
            }
            while k < n_tc
                invariant
                    ci < cs.len(),
                    cs == self.edits.spec_consequences(),
                    tcs == cs[ci as int].tag_changes,
                    n_tc == tcs.len(),
                    k <= n_tc,
                    r@ == ins_all_tc(touched_ways(cs.subrange(0, ci as int)), tcs.subrange(0, k as int)),
                decreases n_tc - k,
            {
                proof {
                    let cur = tcs.subrange(0, k as int + 1);
                    assert(cur.drop_last() =~= tcs.subrange(0, k as int));
                    assert(cur.last() == tcs[k as int]);
                    assert(tcs[k as int].0 == self.edits.consequences@[ci as int].tag_changes@[
                        k as int].0);
                }
                let wid = self.edits.consequences[ci].tag_changes[k].0;
                ins_id_exec(&mut r, wid);
                k += 1;
            }
            proof {
                assert(tcs.subrange(0, n_tc as int) =~= tcs);
            }
            let ghost nrs = cs[ci as int].node_replacements;
            let ghost base2 = ins_all_tc(touched_ways(cs.subrange(0, ci as int)), tcs);
            let n_nr = self.edits.consequences[ci].node_replacements.len();
            let mut k: usize = 0;
            proof {
                assert(nrs.subrange(0, 0) =~= Seq::<(i64, Seq<i64>)>::empty());
            }
            while k < n_nr
                invariant
                    ci < cs.len(),
                    cs == self.edits.spec_consequences(),
                    nrs == cs[ci as int].node_replacements,
                    n_nr == nrs.len(),
                    k <= n_nr,
                    r@ == ins_all(base2, nrs.subrange(0, k as int)),
                decreases n_nr - k,
            {
                proof {
                    let cur = nrs.subrange(0, k as int + 1);
                    assert(cur.drop_last() =~= nrs.subrange(0, k as int));
                    assert(cur.last() == nrs[k as int]);
                    assert(nrs[k as int].0 == self.edits.consequences@[ci as int].node_replacements@[
                        k as int].0);
                }
                let wid = self.edits.consequences[ci].node_replacements[k].0;
                ins_id_exec(&mut r, wid);
                k += 1;
            }
            proof {
                assert(nrs.subrange(0, n_nr as int) =~= nrs);
            }
            ci += 1;
        }
        proof {
            assert(cs.subrange(0, n_cs as int) =~= cs);
        }
        r
    }
}

/// Insert an identifier at its sorted position unless present.
pub fn ins_id_exec(v: &mut Vec<i64>, x: i64)
    ensures
        final(v)@ == ins_id(old(v)@, x),
{
    let ghost orig = v@;
    let n = v.len();
    let mut i: usize = 0;
    proof {
        assert(orig.skip(0) =~= orig);
    }
    while i < n
        invariant
            v@ == orig,
            orig == old(v)@,
            n == orig.len(),
            i <= n,
            ins_id(orig, x) == orig.subrange(0, i as int) + ins_id(orig.skip(i as int), x),
        decreases n - i,
    {
        proof {
            assert(orig.skip(i as int)[0] == orig[i as int]);
            assert(orig.skip(i as int).drop_first() =~= orig.skip(i as int + 1));
        }
        if v[i] == x {
            proof {
                assert(ins_id(orig.skip(i as int), x) == orig.skip(i as int));
                assert(orig.subrange(0, i as int) + orig.skip(i as int) =~= orig);
            }
            return;
        }
        if v[i] > x {
            let ghost fi = i as int;
            v.insert(i, x);
            proof {
                assert(ins_id(orig.skip(fi), x) =~= seq![x] + orig.skip(fi));
                assert(v@ =~= orig.subrange(0, fi) + (seq![x] + orig.skip(fi)));
            }
            return;
        }
        proof {
            assert(ins_id(orig.skip(i as int), x) =~= seq![orig[i as int]] + ins_id(
                orig.skip(i as int + 1),
                x,
            ));
            assert(orig.subrange(0, i as int) + (seq![orig[i as int]] + ins_id(
                orig.skip(i as int + 1),
                x,
            )) =~= orig.subrange(0, i as int + 1) + ins_id(orig.skip(i as int + 1), x));
        }
        i += 1;
    }
    v.push(x);
    proof {
        assert(orig.skip(n as int) =~= Seq::<i64>::empty());
        assert(ins_id(orig.skip(n as int), x) =~= seq![x]);
        assert(v@ =~= orig.subrange(0, n as int) + seq![x]);
        assert(orig.subrange(0, n as int) =~= orig);
    }
}

/// Sorted insertion grows the list by at most one.
pub proof fn lemma_ins_id_len(s: Seq<i64>, x: i64)
    ensures
        ins_id(s, x).len() <= s.len() + 1,
        ins_id(s, x).len() >= s.len(),
    decreases s.len(),
{
    if s.len() > 0 && s[0] != x && !(x < s[0]) {
        lemma_ins_id_len(s.drop_first(), x);
    }
}

} // verus!
