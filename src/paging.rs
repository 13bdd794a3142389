use vstd::prelude::*;

verus! {

/// The items of page `p` when `items` are laid out `page_size` to a page.
pub open spec fn page_of<T>(items: Seq<T>, page_size: nat, p: nat) -> Seq<T>
    recommends
        page_size > 0,
{
    if p * page_size >= items.len() {
        Seq::empty()
    } else if (p + 1) * page_size >= items.len() {
        items.subrange(p * page_size as int, items.len() as int)
    } else {
        items.subrange(p * page_size as int, (p + 1) * page_size as int)
    }
}

/// An append-only sequence stored in pages of a fixed capacity. Every page
/// before the last one is full; the last one always has room for one more item.
pub struct PagedList<T> {
    pages: Vec<Vec<T>>,
    last_page: u32,
    page_size: u32,
    items: Ghost<Seq<T>>,
}

impl<T: Copy> PagedList<T> {
    /// All items, in the order in which they were appended.
    pub closed spec fn view(&self) -> Seq<T> {
        self.items@
    }

    pub closed spec fn capacity(&self) -> nat {
        self.page_size as nat
    }

    pub closed spec fn wf(&self) -> bool {
        &&& self.page_size > 0
        &&& self.pages@.len() == self.last_page + 1
        &&& self.items@.len() == self.last_page * self.page_size + self.pages@[self.last_page as int]@.len()
        &&& self.pages@[self.last_page as int]@.len() < self.page_size
        &&& forall|p: int| 0 <= p < self.last_page ==> (#[trigger] self.pages@[p])@.len() == self.page_size
        &&& forall|p: int, k: int|
            0 <= p <= self.last_page && 0 <= k < self.pages@[p]@.len() ==> (#[trigger] self.pages@[p]@[k])
                == self.items@[p * self.page_size + k]
    }

    /// Room for one more item without the page pointer leaving `u32`.
    pub open spec fn can_append(&self) -> bool {
        (self@.len() + 1) / self.capacity() <= u32::MAX
    }

    pub fn new(page_size: u32) -> (r: Self)
        requires
            page_size > 0,
        ensures
            r.wf(),
            r@ == Seq::<T>::empty(),
            r.capacity() == page_size,
    {
        let mut pages: Vec<Vec<T>> = Vec::new();
        pages.push(Vec::new());
        PagedList { pages, last_page: 0, page_size, items: Ghost(Seq::empty()) }
    }

    pub fn page_size(&self) -> (r: u32)
        ensures
            r == self.capacity(),
    {
        self.page_size
    }

    /// Index of the page that receives the next item.
    pub fn last_page(&self) -> (r: u32)
        requires
            self.wf(),
        ensures
            r == self@.len() / self.capacity(),
    {
        proof {
            self.lemma_last_page();
        }
        self.last_page
    }

    /// Room for one more item.
    pub fn has_room(&self) -> (r: bool)
        requires
            self.wf(),
        ensures
            r == self.can_append(),
    {
        proof {
            self.lemma_last_page();
        }
        let last_len = self.pages[self.last_page as usize].len();
        self.last_page < u32::MAX || last_len + 1 < self.page_size as usize
    }

    proof fn lemma_last_page(&self)
        requires
            self.wf(),
        ensures
            self.last_page == self@.len() / self.capacity(),
            self.last_page as nat * self.capacity() <= self@.len(),
            (self.last_page + 1) as nat * self.capacity() > self@.len(),
            (self@.len() + 1) / self.capacity() == if self.pages@[self.last_page as int]@.len()
                + 1 == self.page_size {
                self.last_page + 1
            } else {
                self.last_page as int
            },
    {
        let lp = self.last_page as int;
        let ps = self.page_size as int;
        let r = self.pages@[lp]@.len() as int;
        assert(self@.len() == lp * ps + r);
        vstd::arithmetic::div_mod::lemma_fundamental_div_mod_converse(
            self@.len() as int,
            ps,
            lp,
            r,
        );
        if r + 1 == ps {
            assert(self@.len() + 1 == (lp + 1) * ps + 0) by (nonlinear_arith)
                requires
                    self@.len() == lp * ps + r,
                    r + 1 == ps,
            ;
            vstd::arithmetic::div_mod::lemma_fundamental_div_mod_converse(
                self@.len() + 1 as int,
                ps,
                lp + 1,
                0,
            );
        } else {
            vstd::arithmetic::div_mod::lemma_fundamental_div_mod_converse(
                self@.len() + 1 as int,
                ps,
                lp,
                r + 1,
            );
        }
        assert((lp + 1) * ps == lp * ps + ps) by (nonlinear_arith);
    }

    /// The items of page `page`; empty past the last page.
    pub fn get_page(&self, page: u32) -> (r: Vec<T>)
        requires
            self.wf(),
        ensures
            r@ == page_of(self@, self.capacity(), page as nat),
    {
        proof {
            self.lemma_last_page();
        }
        let mut out: Vec<T> = Vec::new();
        if page > self.last_page {
            proof {
                let ps = self.page_size as int;
                assert(page as int * ps >= (self.last_page + 1) * ps) by (nonlinear_arith)
                    requires
                        page as int >= self.last_page + 1,
                        ps > 0,
                ;
            }
            return out;
        }
        let ghost p = page as int;
        let ghost ps = self.page_size as int;
        let src = &self.pages[page as usize];
        let mut k: usize = 0;
        while k < src.len()
            invariant
                self.wf(),
                src == self.pages@[p],
                0 <= p <= self.last_page,
                ps == self.page_size,
                k <= src@.len(),
                out@.len() == k,
                forall|j: int| 0 <= j < k ==> #[trigger] out@[j] == self@[p * ps + j],
            decreases src@.len() - k,
        {
            out.push(src[k]);
            k = k + 1;
        }
        proof {
            let n = self@.len() as int;
            let lp = self.last_page as int;
            let len = src@.len() as int;
            assert((p + 1) * ps == p * ps + ps) by (nonlinear_arith);
            if p < lp {
                assert(len == ps);
                assert((p + 1) * ps <= lp * ps) by (nonlinear_arith)
                    requires
                        p + 1 <= lp,
                        ps > 0,
                ;
            } else {
                assert(p * ps + len == n);
            }
            assert(p * ps < n || len == 0);
            let expect = page_of(self@, self.capacity(), page as nat);
            if len > 0 {
                assert(out@ =~= expect);
            } else {
                assert(p == lp);
                assert(out@ =~= expect);
            }
        }
        out
    }

    /// Appends `item` to the last page; when that page becomes full the page
    /// pointer moves on to a fresh page.
    pub fn append(&mut self, item: T)
        requires
            old(self).wf(),
            old(self).can_append(),
        ensures
            final(self).wf(),
            final(self)@ == old(self)@.push(item),
            final(self).capacity() == old(self).capacity(),
    {
        proof {
            self.lemma_last_page();
        }
        let ghost before = self.items@;
        let mut page = self.pages.pop().unwrap();
        page.push(item);
        self.items = Ghost(before.push(item));
        let full = page.len() == self.page_size as usize;
        self.pages.push(page);
        if full {
            self.pages.push(Vec::new());
            self.last_page = self.last_page + 1;
        }
        proof {
            let ps = self.page_size as int;
            let olp = old(self).last_page as int;
            let olen = old(self)@.len() as int;
            assert forall|p: int, k: int|
                0 <= p <= self.last_page && 0 <= k < self.pages@[p]@.len() implies (
                #[trigger] self.pages@[p]@[k]) == self.items@[p * ps + k] by {
                if p < old(self).last_page {
                    assert(self.pages@[p] == old(self).pages@[p]);
                    assert(p * ps + k < olen) by (nonlinear_arith)
                        requires
                            0 <= p,
                            p + 1 <= olp,
                            0 <= k < ps,
                            olen >= olp * ps,
                    ;
                }
            }
            if full {
                assert((olp + 1) * ps == olp * ps + ps) by (nonlinear_arith);
            }
        }
    }
}

} // verus!
