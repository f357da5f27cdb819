//! Feed entries for the syndication serializer: per content entry a
//! display title, an absolute link built from the encoded identifier, and
//! the formatted publish time. The XML itself is the serializer's job.

use vstd::prelude::*;

use crate::codec::spec_encode;
use crate::content::Post;
use crate::time::{rfc2822_in_range, rfc2822_of, try_format_rfc2822};

verus! {

/// What the feed serializer receives for one entry.
pub struct FeedItem {
    pub title: String,
    pub link: String,
    pub pub_date: Option<String>,
}

/// The mathematical shape of a [`FeedItem`].
pub ghost struct FeedItemView {
    pub title: Seq<char>,
    pub link: Seq<char>,
    pub pub_date: Option<Seq<char>>,
}

impl View for FeedItem {
    type V = FeedItemView;

    open spec fn view(&self) -> FeedItemView {
        FeedItemView {
            title: self.title@,
            link: self.link@,
            pub_date: match self.pub_date {
                Some(s) => Some(s@),
                None => None,
            },
        }
    }
}

/// The absolute link of an entry: the site base, a slash, and the
/// entry's encoded path under `posts/`.
pub open spec fn spec_item_link(base_url: Seq<char>, original_fn: Seq<u8>) -> Seq<char> {
    base_url + "/"@ + "posts/"@ + spec_encode(original_fn)
}

/// Build the feed entries for a listing, in listing order.
pub fn feed_entries(base_url: &str, posts: &Vec<Post>) -> (r: Vec<FeedItem>)
    requires
        forall|i: int| 0 <= i < posts@.len() ==> (#[trigger] posts@[i])@.post_date.wf(),
    ensures
        r@.len() == posts@.len(),
        forall|i: int|
            0 <= i < r@.len() ==> {
                let p = (#[trigger] posts@[i])@;
                let item = r@[i]@;
                &&& item.title == p.title
                &&& item.link == spec_item_link(base_url@, p.original_fn)
                &&& match item.pub_date {
                    Some(s) => rfc2822_in_range(p.post_date) && s == rfc2822_of(
                        p.post_date.secs as int,
                        p.post_date.nanos as int,
                    ),
                    None => !rfc2822_in_range(p.post_date),
                }
            },
{
    let n = posts.len();
    let mut out: Vec<FeedItem> = Vec::new();
    let mut i: usize = 0;
    while i < n
        invariant
            i <= n,
            n == posts@.len(),
            out@.len() == i,
            forall|k: int| 0 <= k < posts@.len() ==> (#[trigger] posts@[k])@.post_date.wf(),
            forall|k: int|
                0 <= k < i ==> {
                    let p = (#[trigger] posts@[k])@;
                    let item = out@[k]@;
                    &&& item.title == p.title
                    &&& item.link == spec_item_link(base_url@, p.original_fn)
                    &&& match item.pub_date {
                        Some(s) => rfc2822_in_range(p.post_date) && s == rfc2822_of(
                            p.post_date.secs as int,
                            p.post_date.nanos as int,
                        ),
                        None => !rfc2822_in_range(p.post_date),
                    }
                },
        decreases n - i,
    {
        let post = &posts[i];
        let title = post.title.clone();
        let ghost title_view = post.title@;
        let mut link = base_url.to_owned();
        link.append("/");
        let path = post.url_path();
        link.append(path.as_str());
        let pub_date = try_format_rfc2822(&post.post_date);
        let item = FeedItem { title, link, pub_date };
        proof {
            assert(item@.link =~= spec_item_link(base_url@, posts@[i as int]@.original_fn));
        }
        out.push(item);
        i = i + 1;
    }
    out
}

} // verus!
