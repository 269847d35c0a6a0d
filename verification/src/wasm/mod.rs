pub mod fetcher;
