pub mod datastore;
