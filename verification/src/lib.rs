//! The graph of the articles of an encyclopedia, as their links draw it:
//! the neighbourhood of an article, and a shortest route between two.

pub mod article;
pub mod collector;
pub mod config;
pub mod graph;
pub mod order;
pub mod pathfinder;
pub mod reach;
pub mod scraper;
pub mod text;
pub mod url;
pub mod urlset;

pub use article::{Article, ArticleErr};
pub use collector::{CollectionErr, Collector, Fetched, Step};
pub use config::{
    Config, ConfigErr, REFERENCE_PREFIX, WIKI_ARTICLE_PREFIX, WIKI_ARTICLE_PREFIX_BLACKLIST,
    WIKI_ARTICLE_SUFFIX_BLACKLIST, WIKI_DOMAIN,
};
pub use url::{URLErr, URL};
